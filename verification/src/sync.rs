//! A round: the PC compares both sides of a Share with what they last agreed
//! on and moves files until they agree again.

use crate::collections::{lists, Duplicate, StringMap, StringSet};
use crate::config::{copy_text, lemma_seen_push, owned_text, seen, RemapPolicy, SyncMode};
use crate::ignore::{ignored, Ignore};
use crate::journal::look;
use crate::model::{
    conflict_name, conflict_path, reconcile, reconciled, Action, Entry, EntryView, Manifest,
    ModelFault, MAX_FILE, VERSION,
};
use crate::protocol::MANIFEST_CHUNK_FILES;
use crate::storage::hash_of;
use crate::text::{begins, same, strip_prefix, Chars};
use vstd::prelude::*;

verus! {

/// How many files may be on their way at once.
pub const MAX_IN_FLIGHT_FILES: usize = 4;

/// How many bytes may be staged at once.
pub const MAX_STAGED_BYTES: u64 = 8 * 1024 * 1024;

/// What both sides of a Share last agreed on.
pub struct State {
    pub conflicts: StringSet,
    pub last_sync: Option<u64>,
    pub version: u32,
    pub pair_id: String,
    pub share_id: String,
    pub peer_root: Option<String>,
    /// The digest of each file at the last agreement.
    pub files: StringMap<String>,
    pub base_token: Option<String>,
}

/// A [`State`] as a mathematical value.
#[verifier::ext_equal]
pub struct StateView {
    pub conflicts: Set<Chars>,
    pub last_sync: Option<u64>,
    pub version: u32,
    pub pair_id: Chars,
    pub share_id: Chars,
    pub peer_root: Option<Chars>,
    pub files: Map<Chars, Chars>,
    pub base_token: Option<Chars>,
}

impl View for State {
    type V = StateView;

    open spec fn view(&self) -> StateView {
        StateView {
            conflicts: self.conflicts@,
            last_sync: self.last_sync,
            version: self.version,
            pair_id: self.pair_id@,
            share_id: self.share_id@,
            peer_root: owned_text(self.peer_root),
            files: self.files@,
            base_token: owned_text(self.base_token),
        }
    }
}

/// Nothing was ever agreed on.
pub open spec fn blank_state(pair_id: Chars, share_id: Chars) -> StateView {
    StateView {
        conflicts: Set::empty(),
        last_sync: None,
        version: VERSION,
        pair_id,
        share_id,
        peer_root: None,
        files: Map::empty(),
        base_token: None,
    }
}

impl State {
    /// The state of a Share: the stored one if it belongs to the Share and
    /// the pair, a blank one where none is stored.
    pub fn load(stored: Option<State>, pair_id: &str, share_id: &str) -> (r: Option<Self>)
        ensures
            stored is None ==> r is Some && r->0@ == blank_state(pair_id@, share_id@),
            stored is Some ==> (r is Some <==> stored->0@.version == VERSION && stored->0@.pair_id
                == pair_id@ && stored->0@.share_id == share_id@),
            stored is Some && r is Some ==> r->0@ == stored->0@,
    {
        match stored {
            None => Some(
                State {
                    conflicts: StringSet::new(),
                    last_sync: None,
                    version: VERSION,
                    pair_id: pair_id.to_owned(),
                    share_id: share_id.to_owned(),
                    peer_root: None,
                    files: StringMap::new(),
                    base_token: None,
                },
            ),
            Some(state) => {
                if state.version == VERSION && same(state.pair_id.as_str(), pair_id) && same(
                    state.share_id.as_str(),
                    share_id,
                ) {
                    Some(state)
                } else {
                    None
                }
            },
        }
    }
}

/// Which of two staged copies is sent.
#[derive(Clone, Copy, Debug, PartialEq, Eq, Structural)]
pub enum Staged {
    /// The copy of a file of the PC.
    Local,
    /// The copy that came from the phone.
    Remote,
}

/// One step of a round. The steps are done in order, and the first failure
/// ends the round.
pub enum Op {
    /// Report progress.
    Progress { path: String, index: usize, total: usize },
    /// Stage a copy of a file of the PC.
    Snapshot { path: String, entry: Entry },
    /// Announce a file and send a staged copy of it.
    Put { path: String, expected: Option<String>, entry: Entry, staged: Staged },
    /// Wait for the confirmation of the oldest file that was sent.
    Accept { path: String },
    /// Ask for a file.
    Get { path: String, entry: Entry },
    /// Stage the oldest file that was asked for.
    Receive { path: String, entry: Entry },
    /// Install a staged file of the phone on the PC.
    Install { path: String, expected: Option<String>, entry: Entry },
    /// Take note that both sides hold a version.
    Acknowledge { path: String, entry: Entry },
    /// Tell the phone which versions both sides hold.
    SendAcks { entries: Manifest },
    /// Both sides agree on this digest, or on the file's absence.
    Base { path: String, hash: Option<String> },
    /// The path needs attention.
    Mark { path: String },
    /// The path needs no attention any more.
    Clear { path: String },
    /// Store the state.
    Persist,
}

/// An [`Op`] as a mathematical value.
pub enum OpView {
    Progress { path: Chars, index: int, total: int },
    Snapshot { path: Chars, entry: EntryView },
    Put { path: Chars, expected: Option<Chars>, entry: EntryView, staged: Staged },
    Accept { path: Chars },
    Get { path: Chars, entry: EntryView },
    Receive { path: Chars, entry: EntryView },
    Install { path: Chars, expected: Option<Chars>, entry: EntryView },
    Acknowledge { path: Chars, entry: EntryView },
    SendAcks { entries: Map<Chars, EntryView> },
    Base { path: Chars, hash: Option<Chars> },
    Mark { path: Chars },
    Clear { path: Chars },
    Persist,
}

impl View for Op {
    type V = OpView;

    open spec fn view(&self) -> OpView {
        match self {
            Op::Progress { path, index, total } => OpView::Progress {
                path: path@,
                index: *index as int,
                total: *total as int,
            },
            Op::Snapshot { path, entry } => OpView::Snapshot { path: path@, entry: entry@ },
            Op::Put { path, expected, entry, staged } => OpView::Put {
                path: path@,
                expected: owned_text(*expected),
                entry: entry@,
                staged: *staged,
            },
            Op::Accept { path } => OpView::Accept { path: path@ },
            Op::Get { path, entry } => OpView::Get { path: path@, entry: entry@ },
            Op::Receive { path, entry } => OpView::Receive { path: path@, entry: entry@ },
            Op::Install { path, expected, entry } => OpView::Install {
                path: path@,
                expected: owned_text(*expected),
                entry: entry@,
            },
            Op::Acknowledge { path, entry } => OpView::Acknowledge { path: path@, entry: entry@ },
            Op::SendAcks { entries } => OpView::SendAcks { entries: entries@ },
            Op::Base { path, hash } => OpView::Base { path: path@, hash: owned_text(*hash) },
            Op::Mark { path } => OpView::Mark { path: path@ },
            Op::Clear { path } => OpView::Clear { path: path@ },
            Op::Persist => OpView::Persist,
        }
    }
}

/// What a step that was done changes in the agreed state.
pub open spec fn settled_by(s: StateView, op: OpView) -> StateView {
    match op {
        OpView::Base { path, hash } => match hash {
            Some(h) => StateView { files: s.files.insert(path, h), ..s },
            None => StateView { files: s.files.remove(path), ..s },
        },
        OpView::Mark { path } => StateView { conflicts: s.conflicts.insert(path), ..s },
        OpView::Clear { path } => StateView { conflicts: s.conflicts.remove(path), ..s },
        _ => s,
    }
}

/// What steps that were done change, in order.
pub open spec fn settled_by_all(s: StateView, ops: Seq<OpView>) -> StateView
    decreases ops.len(),
{
    if ops.len() == 0 {
        s
    } else {
        settled_by(settled_by_all(s, ops.drop_last()), ops.last())
    }
}

impl State {
    /// Takes note of a step that was done; the result says whether the state
    /// has to be stored now.
    pub fn settle(&mut self, op: &Op) -> (r: bool)
        ensures
            final(self)@ == settled_by(old(self)@, op@),
            r == (op@ is Persist),
    {
        let ghost s = self@;
        match op {
            Op::Base { path, hash } => {
                match hash {
                    Some(h) => {
                        self.files.insert(path.clone(), h.clone());
                    },
                    None => {
                        self.files.remove(path.as_str());
                    },
                }
                assert(self@ =~= settled_by(s, op@));
                false
            },
            Op::Mark { path } => {
                self.conflicts.insert(path.clone());
                false
            },
            Op::Clear { path } => {
                self.conflicts.remove(path.as_str());
                false
            },
            Op::Persist => true,
            _ => false,
        }
    }
}

/// A file on its way.
pub struct Job {
    pub path: String,
    pub entry: Entry,
    pub expected: Option<String>,
}

/// A [`Job`] as a mathematical value.
#[verifier::ext_equal]
pub struct JobView {
    pub path: Chars,
    pub entry: EntryView,
    pub expected: Option<Chars>,
}

impl View for Job {
    type V = JobView;

    open spec fn view(&self) -> JobView {
        JobView { path: self.path@, entry: self.entry@, expected: owned_text(self.expected) }
    }
}

/// What a round did.
#[derive(Clone, Copy, Debug, PartialEq, Eq, Structural)]
pub struct Tally {
    pub transferred: usize,
    pub conflicts: usize,
    pub bytes_transferred: u64,
    pub control_messages: u64,
    pub ack_messages: u64,
    pub ack_entries: u64,
    pub peak_in_flight_files: u64,
    pub peak_staged_bytes: u64,
}

/// The files on their way and the confirmations that wait to be sent.
#[verifier::ext_equal]
pub struct WindowView {
    pub puts: Seq<JobView>,
    pub gets: Seq<JobView>,
    pub put_bytes: u64,
    pub get_bytes: u64,
    pub acks: Map<Chars, EntryView>,
    pub tally: Tally,
}

/// The total size of files on their way.
pub open spec fn weight(jobs: Seq<JobView>) -> int
    decreases jobs.len(),
{
    if jobs.len() == 0 {
        0
    } else {
        weight(jobs.drop_last()) + jobs.last().entry.size
    }
}

/// At most four files and eight mebibytes are on their way, in one direction
/// at a time, and fewer confirmations wait than one message holds.
pub open spec fn bounded(w: WindowView) -> bool {
    &&& w.puts.len() <= MAX_IN_FLIGHT_FILES
    &&& w.gets.len() <= MAX_IN_FLIGHT_FILES
    &&& w.put_bytes == weight(w.puts) <= MAX_STAGED_BYTES
    &&& w.get_bytes == weight(w.gets) <= MAX_STAGED_BYTES
    &&& w.puts.len() == 0 || w.gets.len() == 0
    &&& w.acks.dom().finite()
    &&& w.acks.dom().len() < MANIFEST_CHUNK_FILES
}

/// One more file was moved.
pub open spec fn moved(t: Tally, files: int, bytes: int, messages: int) -> Tally {
    Tally {
        transferred: (t.transferred + files) as usize,
        bytes_transferred: (t.bytes_transferred + bytes) as u64,
        control_messages: (t.control_messages + messages) as u64,
        ..t
    }
}

/// A confirmation is added to those that wait, and a full batch is sent.
pub open spec fn acked(w: WindowView, path: Chars, entry: EntryView) -> (WindowView, Seq<OpView>) {
    let all = w.acks.insert(path, entry);
    if all.dom().len() == MANIFEST_CHUNK_FILES {
        flushed(WindowView { acks: all, ..w })
    } else {
        (WindowView { acks: all, ..w }, Seq::empty())
    }
}

/// The confirmations that wait are sent, if there are any.
pub open spec fn flushed(w: WindowView) -> (WindowView, Seq<OpView>) {
    if w.acks.dom().len() == 0 {
        (w, Seq::empty())
    } else {
        (
            WindowView {
                acks: Map::empty(),
                tally: Tally {
                    ack_entries: (w.tally.ack_entries + w.acks.dom().len()) as u64,
                    ack_messages: (w.tally.ack_messages + 1) as u64,
                    control_messages: (w.tally.control_messages + 1) as u64,
                    ..w.tally
                },
                ..w
            },
            seq![OpView::SendAcks { entries: w.acks }],
        )
    }
}

/// Each sent file is confirmed in order, and only then counts as agreed.
pub open spec fn puts_drained(w: WindowView, jobs: Seq<JobView>) -> (WindowView, Seq<OpView>)
    decreases jobs.len(),
{
    if jobs.len() == 0 {
        (WindowView { puts: Seq::empty(), put_bytes: 0, ..w }, Seq::empty())
    } else {
        let (v, ops) = puts_drained(w, jobs.drop_last());
        let j = jobs.last();
        (
            WindowView { tally: moved(v.tally, 1, j.entry.size as int, 2), ..v },
            ops + seq![
                OpView::Accept { path: j.path },
                OpView::Base { path: j.path, hash: Some(j.entry.hash) },
                OpView::Acknowledge { path: j.path, entry: j.entry },
                OpView::Persist,
            ],
        )
    }
}

/// Every file that was asked for is staged, in order.
pub open spec fn receipts(jobs: Seq<JobView>) -> Seq<OpView> {
    jobs.map_values(|j: JobView| OpView::Receive { path: j.path, entry: j.entry })
}

/// Each staged file is installed in order, and only then counts as agreed.
pub open spec fn gets_installed(w: WindowView, jobs: Seq<JobView>) -> (WindowView, Seq<OpView>)
    decreases jobs.len(),
{
    if jobs.len() == 0 {
        (WindowView { gets: Seq::empty(), get_bytes: 0, ..w }, Seq::empty())
    } else {
        let (v, ops) = gets_installed(w, jobs.drop_last());
        let j = jobs.last();
        let (u, sent) = acked(v, j.path, j.entry);
        (
            WindowView { tally: moved(u.tally, 1, j.entry.size as int, 2), ..u },
            ops + seq![
                OpView::Install { path: j.path, expected: j.expected, entry: j.entry },
            ] + sent + seq![
                OpView::Base { path: j.path, hash: Some(j.entry.hash) },
                OpView::Persist,
            ],
        )
    }
}

/// All files that were asked for arrive and are installed.
pub open spec fn gets_drained(w: WindowView) -> (WindowView, Seq<OpView>) {
    let (v, ops) = gets_installed(w, w.gets);
    (v, receipts(w.gets) + ops)
}

/// What happens to a path. A path without a base follows the remap policy, if
/// the Share has one, where both sides hold different files.
pub open spec fn decided(
    base: Option<Chars>,
    pc: Option<EntryView>,
    android: Option<EntryView>,
    remap: Option<RemapPolicy>,
) -> Action {
    if base is None && remap is Some && pc is Some && android is Some && hash_of(pc) != hash_of(
        android,
    ) {
        match remap->0 {
            RemapPolicy::Pc => Action::ToAndroid,
            RemapPolicy::Android => Action::ToPc,
            RemapPolicy::Compare => Action::Conflict,
        }
    } else {
        reconciled(base, hash_of(pc), hash_of(android))
    }
}

/// Whether the mode of the Share forbids an action. The first comparison
/// after a remap is exempt.
pub open spec fn forbidden(
    mode: SyncMode,
    base: Option<Chars>,
    remap: Option<RemapPolicy>,
    action: Action,
) -> bool {
    !(base is None && remap is Some) && match mode {
        SyncMode::Bidirectional => false,
        SyncMode::ToAndroid => action == Action::ToPc || action == Action::Conflict,
        SyncMode::ToPc => action == Action::ToAndroid || action == Action::Conflict,
    }
}

/// What a path needs of the window before it is acted upon: another direction
/// waits until everything on its way has arrived.
pub open spec fn turned(w: WindowView, action: Action, stop: bool) -> (WindowView, Seq<OpView>) {
    let (v, a) = if w.puts.len() > 0 && (action != Action::ToAndroid || stop) {
        puts_drained(w, w.puts)
    } else {
        (w, Seq::empty())
    };
    let (u, b) = if v.gets.len() > 0 && (action != Action::ToPc || stop) {
        gets_drained(v)
    } else {
        (v, Seq::empty())
    };
    (u, a + b)
}

/// A larger of two numbers.
pub open spec fn larger(a: u64, b: int) -> u64 {
    if b > a {
        b as u64
    } else {
        a
    }
}

/// A file of the PC goes to the phone: through the window, or alone if it is
/// larger than the window.
pub open spec fn sent(
    w: WindowView,
    path: Chars,
    entry: EntryView,
    expected: Option<Chars>,
) -> (WindowView, Seq<OpView>) {
    let (v, ops) = if w.puts.len() == MAX_IN_FLIGHT_FILES || w.put_bytes + entry.size
        > MAX_STAGED_BYTES {
        puts_drained(w, w.puts)
    } else {
        (w, Seq::empty())
    };
    let head = ops + seq![
        OpView::Snapshot { path, entry },
        OpView::Put { path, expected, entry, staged: Staged::Local },
    ];
    if entry.size > MAX_STAGED_BYTES {
        (
            WindowView { tally: moved(v.tally, 1, entry.size as int, 2), ..v },
            head + seq![
                OpView::Accept { path },
                OpView::Base { path, hash: Some(entry.hash) },
                OpView::Acknowledge { path, entry },
            ],
        )
    } else {
        (
            WindowView {
                puts: v.puts.push(JobView { path, entry, expected }),
                put_bytes: (v.put_bytes + entry.size) as u64,
                tally: Tally {
                    peak_in_flight_files: larger(v.tally.peak_in_flight_files, v.puts.len() as int + 1),
                    peak_staged_bytes: larger(
                        v.tally.peak_staged_bytes,
                        v.put_bytes + entry.size,
                    ),
                    ..v.tally
                },
                ..v
            },
            head,
        )
    }
}

/// A file of the phone comes to the PC: through the window, or alone if it is
/// larger than the window.
pub open spec fn fetched(
    w: WindowView,
    path: Chars,
    entry: EntryView,
    expected: Option<Chars>,
) -> (WindowView, Seq<OpView>) {
    let (v, ops) = if w.gets.len() == MAX_IN_FLIGHT_FILES || w.get_bytes + entry.size
        > MAX_STAGED_BYTES {
        gets_drained(w)
    } else {
        (w, Seq::empty())
    };
    let head = ops + seq![OpView::Get { path, entry }];
    if entry.size > MAX_STAGED_BYTES {
        let (u, batch) = acked(v, path, entry);
        (
            WindowView { tally: moved(u.tally, 1, entry.size as int, 2), ..u },
            head + seq![
                OpView::Receive { path, entry },
                OpView::Install { path, expected, entry },
            ] + batch + seq![OpView::Base { path, hash: Some(entry.hash) }],
        )
    } else {
        (
            WindowView {
                gets: v.gets.push(JobView { path, entry, expected }),
                get_bytes: (v.get_bytes + entry.size) as u64,
                tally: Tally {
                    peak_in_flight_files: larger(v.tally.peak_in_flight_files, v.gets.len() as int + 1),
                    peak_staged_bytes: larger(
                        v.tally.peak_staged_bytes,
                        v.get_bytes + entry.size,
                    ),
                    ..v.tally
                },
                ..v
            },
            head,
        )
    }
}

/// A conflict: the phone's version is kept under a name of its own on both
/// sides before the PC's version takes the original path.
pub open spec fn parted(w: WindowView, path: Chars, pc: EntryView, android: EntryView) -> (
    WindowView,
    Seq<OpView>,
) {
    let aside = conflict_name(path, android.hash);
    (
        WindowView {
            tally: Tally {
                conflicts: (w.tally.conflicts + 1) as usize,
                ..moved(w.tally, 3, android.size * 2 + pc.size, 6)
            },
            ..w
        },
        seq![
            OpView::Snapshot { path, entry: pc },
            OpView::Get { path, entry: android },
            OpView::Receive { path, entry: android },
            OpView::Install { path: aside, expected: None, entry: android },
            OpView::Put { path: aside, expected: None, entry: android, staged: Staged::Remote },
            OpView::Accept { path: aside },
            OpView::Put { path, expected: Some(android.hash), entry: pc, staged: Staged::Local },
            OpView::Accept { path },
            OpView::Acknowledge { path, entry: pc },
            OpView::Mark { path: aside },
            OpView::Base { path: aside, hash: Some(android.hash) },
            OpView::Base { path, hash: Some(pc.hash) },
        ],
    )
}

/// Both sides agree already.
pub open spec fn agreed(w: WindowView, path: Chars, pc: Option<EntryView>) -> (
    WindowView,
    Seq<OpView>,
) {
    match pc {
        None => (w, seq![OpView::Base { path, hash: None }]),
        Some(entry) => {
            let (v, batch) = acked(w, path, entry);
            (
                v,
                seq![OpView::Acknowledge { path, entry }] + batch + seq![
                    OpView::Base { path, hash: Some(entry.hash) },
                ],
            )
        },
    }
}

/// The digest that both sides agree on once the steps for a path are done,
/// where that is not left to the window.
pub open spec fn new_base(
    base: Option<Chars>,
    action: Action,
    pc: Option<EntryView>,
    android: Option<EntryView>,
) -> Option<Chars> {
    match action {
        Action::Nothing => hash_of(pc),
        Action::ToAndroid => if pc->0.size > MAX_STAGED_BYTES {
            hash_of(pc)
        } else {
            base
        },
        Action::ToPc => if android->0.size > MAX_STAGED_BYTES {
            hash_of(android)
        } else {
            base
        },
        Action::Conflict => hash_of(pc),
    }
}

/// The steps that an action takes.
pub open spec fn acted(
    w: WindowView,
    action: Action,
    path: Chars,
    pc: Option<EntryView>,
    android: Option<EntryView>,
) -> (WindowView, Seq<OpView>) {
    match action {
        Action::Nothing => agreed(w, path, pc),
        Action::ToAndroid => sent(w, path, pc->0, hash_of(android)),
        Action::ToPc => fetched(w, path, android->0, hash_of(pc)),
        Action::Conflict => parted(w, path, pc->0, android->0),
    }
}

/// The steps for one path.
pub open spec fn path_step(
    w: WindowView,
    path: Chars,
    at: (int, int),
    base: Option<Chars>,
    sides: (Option<EntryView>, Option<EntryView>),
    rules: (SyncMode, Option<RemapPolicy>),
) -> (WindowView, Seq<OpView>) {
    let (pc, android) = sides;
    let (mode, remap) = rules;
    let action = decided(base, pc, android, remap);
    let stop = forbidden(mode, base, remap, action);
    let (v, drained) = turned(w, action, stop);
    let shown = if action != Action::Nothing {
        seq![OpView::Progress { path, index: at.0, total: at.1 }]
    } else {
        Seq::empty()
    };
    if stop {
        (
            WindowView {
                tally: Tally { conflicts: (v.tally.conflicts + 1) as usize, ..v.tally },
                ..v
            },
            drained + shown + seq![OpView::Mark { path }, OpView::Persist],
        )
    } else {
        let cleared = if action != Action::Conflict && !begins(path, "Rowd Conflicts/"@) {
            seq![OpView::Clear { path }]
        } else {
            Seq::empty()
        };
        let (u, acts) = acted(v, action, path, pc, android);
        let stored = if new_base(base, action, pc, android) != base {
            seq![OpView::Persist]
        } else {
            Seq::empty()
        };
        (u, drained + shown + cleared + acts + stored)
    }
}

/// The counters have room for what is on its way and for `n` more paths.
pub open spec fn fits(w: WindowView, n: int) -> bool {
    let on_the_way = w.puts.len() + w.gets.len();
    &&& w.tally.transferred + on_the_way + 3 * n <= usize::MAX
    &&& w.tally.conflicts + n <= usize::MAX
    &&& w.tally.bytes_transferred + weight(w.puts) + weight(w.gets) + 0x6_0000_0000 * n <= u64::MAX
    &&& w.tally.control_messages + 3 * on_the_way + 8 * n + 1 <= u64::MAX
    &&& w.tally.ack_entries + w.acks.dom().len() + w.gets.len() + n <= u64::MAX
    &&& w.tally.ack_messages + w.gets.len() + n + 1 <= u64::MAX
}

/// Appends a step.
fn emit(ops: &mut Vec<Op>, op: Op)
    ensures
        seen(final(ops)@) == seen(old(ops)@).push(op@),
{
    proof {
        lemma_seen_push(ops@, op);
    }
    ops.push(op);
}

/// The files on their way and the confirmations that wait to be sent.
pub struct Window {
    puts: Vec<Job>,
    gets: Vec<Job>,
    put_bytes: u64,
    get_bytes: u64,
    acks: Manifest,
    tally: Tally,
}

impl View for Window {
    type V = WindowView;

    closed spec fn view(&self) -> WindowView {
        WindowView {
            puts: seen(self.puts@),
            gets: seen(self.gets@),
            put_bytes: self.put_bytes,
            get_bytes: self.get_bytes,
            acks: self.acks@,
            tally: self.tally,
        }
    }
}

/// Nothing is on its way, and nothing was done.
pub open spec fn empty_window() -> WindowView {
    WindowView {
        puts: Seq::empty(),
        gets: Seq::empty(),
        put_bytes: 0,
        get_bytes: 0,
        acks: Map::empty(),
        tally: Tally {
            transferred: 0,
            conflicts: 0,
            bytes_transferred: 0,
            control_messages: 0,
            ack_messages: 0,
            ack_entries: 0,
            peak_in_flight_files: 0,
            peak_staged_bytes: 0,
        },
    }
}

proof fn lemma_weight_push(jobs: Seq<JobView>, j: JobView)
    ensures
        weight(jobs.push(j)) == weight(jobs) + j.entry.size,
{
    assert(jobs.push(j).drop_last() =~= jobs);
}

proof fn lemma_weight_positive(jobs: Seq<JobView>)
    ensures
        weight(jobs) >= 0,
    decreases jobs.len(),
{
    if jobs.len() > 0 {
        lemma_weight_positive(jobs.drop_last());
    }
}

impl Window {
    /// An empty window.
    pub fn new() -> (r: Self)
        ensures
            r@ == empty_window(),
            bounded(r@),
    {
        let r = Window {
            puts: Vec::new(),
            gets: Vec::new(),
            put_bytes: 0,
            get_bytes: 0,
            acks: StringMap::new(),
            tally: Tally {
                transferred: 0,
                conflicts: 0,
                bytes_transferred: 0,
                control_messages: 0,
                ack_messages: 0,
                ack_entries: 0,
                peak_in_flight_files: 0,
                peak_staged_bytes: 0,
            },
        };
        assert(seen(r.puts@) =~= Seq::<JobView>::empty());
        assert(seen(r.gets@) =~= Seq::<JobView>::empty());
        assert(r@ =~= empty_window());
        r
    }

    /// What the round did so far.
    pub fn tally(&self) -> (r: Tally)
        ensures
            r == self@.tally,
    {
        self.tally
    }

    fn count_moved(&mut self, files: usize, bytes: u64, messages: u64)
        requires
            old(self)@.tally.transferred + files <= usize::MAX,
            old(self)@.tally.bytes_transferred + bytes <= u64::MAX,
            old(self)@.tally.control_messages + messages <= u64::MAX,
        ensures
            final(self)@ == (WindowView {
                tally: moved(
                    old(self)@.tally,
                    files as int,
                    bytes as int,
                    messages as int,
                ),
                ..old(self)@
            }),
    {
        let ghost w = self@;
        self.tally.transferred = self.tally.transferred + files;
        self.tally.bytes_transferred = self.tally.bytes_transferred + bytes;
        self.tally.control_messages = self.tally.control_messages + messages;
        assert(self@ =~= (WindowView {
            tally: moved(w.tally, files as int, bytes as int, messages as int),
            ..w
        }));
    }

    /// Sends the confirmations that wait.
    pub fn flush(&mut self, ops: &mut Vec<Op>)
        requires
            bounded(old(self)@) || old(self)@.acks.dom().len() <= MANIFEST_CHUNK_FILES,
            old(self)@.tally.ack_entries + old(self)@.acks.dom().len() <= u64::MAX,
            old(self)@.tally.ack_messages < u64::MAX,
            old(self)@.tally.control_messages < u64::MAX,
        ensures
            final(self)@ == flushed(old(self)@).0,
            seen(final(ops)@) == seen(old(ops)@) + flushed(old(self)@).1,
    {
        let ghost w = self@;
        let ghost o = seen(ops@);
        let n: usize = self.acks.len();
        if n == 0 {
            assert(o + Seq::<OpView>::empty() =~= o);
            return;
        }
        let mut entries: Manifest = StringMap::new();
        std::mem::swap(&mut entries, &mut self.acks);
        emit(ops, Op::SendAcks { entries });
        self.tally.ack_entries = self.tally.ack_entries + n as u64;
        self.tally.ack_messages = self.tally.ack_messages + 1;
        self.tally.control_messages = self.tally.control_messages + 1;
        proof {
            assert(self@ =~= flushed(w).0);
            assert(seen(ops@) =~= o + flushed(w).1);
        }
    }

    fn ack(&mut self, path: &str, entry: &Entry, ops: &mut Vec<Op>)
        requires
            old(self)@.acks.dom().finite(),
            old(self)@.acks.dom().len() < MANIFEST_CHUNK_FILES,
            old(self)@.tally.ack_entries + old(self)@.acks.dom().len() + 1 <= u64::MAX,
            old(self)@.tally.ack_messages < u64::MAX,
            old(self)@.tally.control_messages < u64::MAX,
        ensures
            final(self)@ == acked(old(self)@, path@, entry@).0,
            seen(final(ops)@) == seen(old(ops)@) + acked(old(self)@, path@, entry@).1,
            final(self)@.acks.dom().finite(),
            final(self)@.acks.dom().len() < MANIFEST_CHUNK_FILES,
            final(self)@.tally.ack_entries + final(self)@.acks.dom().len() <= old(
                self,
            )@.tally.ack_entries + old(self)@.acks.dom().len() + 1,
            final(self)@.tally.ack_messages <= old(self)@.tally.ack_messages + 1,
            final(self)@.tally.control_messages <= old(self)@.tally.control_messages + 1,
            final(self)@.puts == old(self)@.puts,
            final(self)@.gets == old(self)@.gets,
            final(self)@.put_bytes == old(self)@.put_bytes,
            final(self)@.get_bytes == old(self)@.get_bytes,
            final(self)@.tally.transferred == old(self)@.tally.transferred,
            final(self)@.tally.conflicts == old(self)@.tally.conflicts,
            final(self)@.tally.bytes_transferred == old(self)@.tally.bytes_transferred,
    {
        let ghost w = self@;
        let ghost o = seen(ops@);
        self.acks.insert(path.to_owned(), entry.duplicate());
        let ghost all = w.acks.insert(path@, entry@);
        proof {
            assert(all.dom() =~= w.acks.dom().insert(path@));
            assert(self@ =~= (WindowView { acks: all, ..w }));
        }
        let n: usize = self.acks.len();
        if n == MANIFEST_CHUNK_FILES {
            self.flush(ops);
            assert(Map::<Chars, EntryView>::empty().dom().len() == 0);
        } else {
            assert(o + Seq::<OpView>::empty() =~= o);
        }
    }

    /// Waits for the confirmation of every file that was sent.
    pub fn drain_puts(&mut self, ops: &mut Vec<Op>)
        requires
            bounded(old(self)@),
            fits(old(self)@, 0),
        ensures
            bounded(final(self)@),
            forall|n: int| fits(old(self)@, n) ==> #[trigger] fits(final(self)@, n),
            final(self)@ == puts_drained(old(self)@, old(self)@.puts).0,
            seen(final(ops)@) == seen(old(ops)@) + puts_drained(old(self)@, old(self)@.puts).1,
    {
        let ghost w = self@;
        let ghost o = seen(ops@);
        let mut jobs: Vec<Job> = Vec::new();
        std::mem::swap(&mut jobs, &mut self.puts);
        self.put_bytes = 0;
        let ghost all = seen(jobs@);
        let mut i: usize = 0;
        proof {
            assert(all.take(0) =~= Seq::<JobView>::empty());
            assert(seen(self.puts@) =~= Seq::<JobView>::empty());
            assert(self@ =~= puts_drained(w, all.take(0)).0);
            assert(o + Seq::<OpView>::empty() =~= o);
        }
        while i < jobs.len()
            invariant
                all == seen(jobs@),
                all == w.puts,
                fits(w, 0),
                bounded(w),
                i <= jobs@.len(),
                self@ == puts_drained(w, all.take(i as int)).0,
                seen(ops@) == o + puts_drained(w, all.take(i as int)).1,
                self@.puts == Seq::<JobView>::empty(),
                self@.put_bytes == 0,
                self@.gets == w.gets,
                self@.get_bytes == w.get_bytes,
                self@.acks == w.acks,
                self@.tally.transferred == w.tally.transferred + i,
                self@.tally.bytes_transferred == w.tally.bytes_transferred + weight(
                    all.take(i as int),
                ),
                self@.tally.control_messages == w.tally.control_messages + 2 * i,
                self@.tally.conflicts == w.tally.conflicts,
                self@.tally.ack_entries == w.tally.ack_entries,
                self@.tally.ack_messages == w.tally.ack_messages,
            decreases jobs@.len() - i,
        {
            let ghost t = all.take(i + 1);
            proof {
                assert(t.drop_last() =~= all.take(i as int));
                assert(t.last() == jobs@[i as int]@);
                lemma_weight_monotone(all, i + 1);
                lemma_weight_positive(w.gets);
            }
            emit(ops, Op::Accept { path: jobs[i].path.clone() });
            emit(
                ops,
                Op::Base { path: jobs[i].path.clone(), hash: Some(jobs[i].entry.hash.clone()) },
            );
            emit(
                ops,
                Op::Acknowledge { path: jobs[i].path.clone(), entry: jobs[i].entry.duplicate() },
            );
            emit(ops, Op::Persist);
            let size: u64 = jobs[i].entry.size;
            self.count_moved(1, size, 2);
            assert(seen(ops@) =~= o + puts_drained(w, t).1);
            i = i + 1;
        }
        proof {
            assert(all.take(i as int) =~= all);
            assert(weight(Seq::<JobView>::empty()) == 0);
            assert forall|n: int| fits(w, n) implies #[trigger] fits(self@, n) by {}
        }
    }

    /// Stages and installs every file that was asked for.
    pub fn drain_gets(&mut self, ops: &mut Vec<Op>)
        requires
            bounded(old(self)@),
            fits(old(self)@, 0),
        ensures
            bounded(final(self)@),
            forall|n: int| fits(old(self)@, n) ==> #[trigger] fits(final(self)@, n),
            final(self)@ == gets_drained(old(self)@).0,
            seen(final(ops)@) == seen(old(ops)@) + gets_drained(old(self)@).1,
    {
        let ghost w = self@;
        let ghost o = seen(ops@);
        let mut jobs: Vec<Job> = Vec::new();
        std::mem::swap(&mut jobs, &mut self.gets);
        self.get_bytes = 0;
        let ghost all = seen(jobs@);
        let mut i: usize = 0;
        assert(o + receipts(all).take(0) =~= o);
        let ghost cleared = self@;
        while i < jobs.len()
            invariant
                all == seen(jobs@),
                i <= jobs@.len(),
                self@ == cleared,
                seen(ops@) == o + receipts(all).take(i as int),
            decreases jobs@.len() - i,
        {
            emit(
                ops,
                Op::Receive { path: jobs[i].path.clone(), entry: jobs[i].entry.duplicate() },
            );
            proof {
                assert(receipts(all)[i as int] == OpView::Receive {
                    path: jobs@[i as int]@.path,
                    entry: jobs@[i as int]@.entry,
                });
                assert(o + receipts(all).take(i + 1) =~= (o + receipts(all).take(i as int)).push(
                    receipts(all)[i as int],
                ));
            }
            i = i + 1;
        }
        let ghost o2 = o + receipts(all);
        proof {
            assert(receipts(all).take(i as int) =~= receipts(all));
            assert(all.take(0) =~= Seq::<JobView>::empty());
            assert(seen(self.gets@) =~= Seq::<JobView>::empty());
            assert(self@ =~= gets_installed(w, all.take(0)).0);
            assert(o2 + Seq::<OpView>::empty() =~= o2);
        }
        i = 0;
        while i < jobs.len()
            invariant
                all == seen(jobs@),
                all == w.gets,
                fits(w, 0),
                bounded(w),
                i <= jobs@.len(),
                self@ == gets_installed(w, all.take(i as int)).0,
                seen(ops@) == o2 + gets_installed(w, all.take(i as int)).1,
                self@.gets == Seq::<JobView>::empty(),
                self@.get_bytes == 0,
                self@.puts == w.puts,
                self@.put_bytes == w.put_bytes,
                self@.acks.dom().finite(),
                self@.acks.dom().len() < MANIFEST_CHUNK_FILES,
                self@.tally.transferred == w.tally.transferred + i,
                self@.tally.bytes_transferred == w.tally.bytes_transferred + weight(
                    all.take(i as int),
                ),
                self@.tally.control_messages <= w.tally.control_messages + 3 * i,
                self@.tally.conflicts == w.tally.conflicts,
                self@.tally.ack_entries + self@.acks.dom().len() <= w.tally.ack_entries
                    + w.acks.dom().len() + i,
                self@.tally.ack_messages <= w.tally.ack_messages + i,
            decreases jobs@.len() - i,
        {
            let ghost t = all.take(i + 1);
            let ghost v = self@;
            let ghost ops_before = seen(ops@);
            proof {
                assert(t.drop_last() =~= all.take(i as int));
                assert(t.last() == jobs@[i as int]@);
                lemma_weight_monotone(all, i + 1);
                lemma_weight_positive(w.puts);
            }
            emit(
                ops,
                Op::Install {
                    path: jobs[i].path.clone(),
                    expected: copy_text(&jobs[i].expected),
                    entry: jobs[i].entry.duplicate(),
                },
            );
            self.ack(jobs[i].path.as_str(), &jobs[i].entry, ops);
            emit(
                ops,
                Op::Base { path: jobs[i].path.clone(), hash: Some(jobs[i].entry.hash.clone()) },
            );
            emit(ops, Op::Persist);
            let size: u64 = jobs[i].entry.size;
            self.count_moved(1, size, 2);
            assert(seen(ops@) =~= o2 + gets_installed(w, t).1);
            i = i + 1;
        }
        proof {
            assert(all.take(i as int) =~= all);
            assert(weight(Seq::<JobView>::empty()) == 0);
            assert(seen(ops@) =~= o + gets_drained(w).1);
            assert forall|n: int| fits(w, n) implies #[trigger] fits(self@, n) by {}
        }
    }
}

proof fn lemma_weight_monotone(jobs: Seq<JobView>, n: int)
    requires
        0 <= n <= jobs.len(),
    ensures
        0 <= weight(jobs.take(n)) <= weight(jobs),
        n > 0 ==> weight(jobs.take(n)) == weight(jobs.take(n - 1)) + jobs[n - 1].entry.size,
    decreases jobs.len() - n,
{
    lemma_weight_positive(jobs.take(n));
    if n > 0 {
        assert(jobs.take(n).drop_last() =~= jobs.take(n - 1));
    }
    if n == jobs.len() {
        assert(jobs.take(n) =~= jobs);
    } else {
        lemma_weight_monotone(jobs, n + 1);
        assert(jobs.take(n + 1).drop_last() =~= jobs.take(n));
    }
}

impl Window {
    /// Sends a file of the PC to the phone.
    fn send(&mut self, path: &str, entry: &Entry, expected: Option<&str>, ops: &mut Vec<Op>)
        requires
            bounded(old(self)@),
            old(self)@.gets.len() == 0,
            fits(old(self)@, 1),
            entry.size <= MAX_FILE,
        ensures
            bounded(final(self)@),
            forall|n: int| n >= 0 && fits(old(self)@, n + 1) ==> #[trigger] fits(final(self)@, n),
            final(self)@ == sent(
                old(self)@,
                path@,
                entry@,
                crate::model::text_of(expected),
            ).0,
            seen(final(ops)@) == seen(old(ops)@) + sent(
                old(self)@,
                path@,
                entry@,
                crate::model::text_of(expected),
            ).1,
    {
        let ghost w = self@;
        let ghost o = seen(ops@);
        let ghost e = crate::model::text_of(expected);
        let full = self.puts.len() == MAX_IN_FLIGHT_FILES || self.put_bytes + entry.size
            > MAX_STAGED_BYTES;
        assert(o + Seq::<OpView>::empty() =~= o);
        if full {
            assert(fits(w, 0));
            self.drain_puts(ops);
        }
        let ghost v = self@;
        proof {
            lemma_puts_drained_window(w, w.puts);
            lemma_weight_positive(w.puts);
            lemma_weight_positive(v.puts);
            assert(fits(v, 1));
        }
        emit(ops, Op::Snapshot { path: path.to_owned(), entry: entry.duplicate() });
        emit(
            ops,
            Op::Put {
                path: path.to_owned(),
                expected: owned(expected),
                entry: entry.duplicate(),
                staged: Staged::Local,
            },
        );
        if entry.size > MAX_STAGED_BYTES {
            emit(ops, Op::Accept { path: path.to_owned() });
            emit(ops, Op::Base { path: path.to_owned(), hash: Some(entry.hash.clone()) });
            emit(ops, Op::Acknowledge { path: path.to_owned(), entry: entry.duplicate() });
            self.count_moved(1, entry.size, 2);
        } else {
            let job = Job {
                path: path.to_owned(),
                entry: entry.duplicate(),
                expected: owned(expected),
            };
            proof {
                lemma_seen_push(self.puts@, job);
                lemma_weight_push(v.puts, job@);
            }
            self.puts.push(job);
            self.put_bytes = self.put_bytes + entry.size;
            let files: u64 = self.puts.len() as u64;
            if files > self.tally.peak_in_flight_files {
                self.tally.peak_in_flight_files = files;
            }
            if self.put_bytes > self.tally.peak_staged_bytes {
                self.tally.peak_staged_bytes = self.put_bytes;
            }
        }
        proof {
            assert(self@ =~= sent(w, path@, entry@, e).0);
            assert(seen(ops@) =~= o + sent(w, path@, entry@, e).1);
            assert forall|n: int| n >= 0 && fits(w, n + 1) implies #[trigger] fits(self@, n) by {
                assert(fits(v, n + 1));
            }
        }
    }

    /// Fetches a file of the phone.
    fn fetch(&mut self, path: &str, entry: &Entry, expected: Option<&str>, ops: &mut Vec<Op>)
        requires
            bounded(old(self)@),
            old(self)@.puts.len() == 0,
            fits(old(self)@, 1),
            entry.size <= MAX_FILE,
        ensures
            bounded(final(self)@),
            forall|n: int| n >= 0 && fits(old(self)@, n + 1) ==> #[trigger] fits(final(self)@, n),
            final(self)@ == fetched(
                old(self)@,
                path@,
                entry@,
                crate::model::text_of(expected),
            ).0,
            seen(final(ops)@) == seen(old(ops)@) + fetched(
                old(self)@,
                path@,
                entry@,
                crate::model::text_of(expected),
            ).1,
    {
        let ghost w = self@;
        let ghost o = seen(ops@);
        let ghost e = crate::model::text_of(expected);
        let full = self.gets.len() == MAX_IN_FLIGHT_FILES || self.get_bytes + entry.size
            > MAX_STAGED_BYTES;
        assert(o + Seq::<OpView>::empty() =~= o);
        if full {
            assert(fits(w, 0));
            self.drain_gets(ops);
        }
        let ghost v = self@;
        proof {
            lemma_gets_drained_window(w);
            lemma_weight_positive(w.gets);
            lemma_weight_positive(v.gets);
            assert(fits(v, 1));
        }
        emit(ops, Op::Get { path: path.to_owned(), entry: entry.duplicate() });
        if entry.size > MAX_STAGED_BYTES {
            emit(ops, Op::Receive { path: path.to_owned(), entry: entry.duplicate() });
            emit(
                ops,
                Op::Install {
                    path: path.to_owned(),
                    expected: owned(expected),
                    entry: entry.duplicate(),
                },
            );
            self.ack(path, entry, ops);
            emit(ops, Op::Base { path: path.to_owned(), hash: Some(entry.hash.clone()) });
            self.count_moved(1, entry.size, 2);
        } else {
            let job = Job {
                path: path.to_owned(),
                entry: entry.duplicate(),
                expected: owned(expected),
            };
            proof {
                lemma_seen_push(self.gets@, job);
                lemma_weight_push(v.gets, job@);
            }
            self.gets.push(job);
            self.get_bytes = self.get_bytes + entry.size;
            let files: u64 = self.gets.len() as u64;
            if files > self.tally.peak_in_flight_files {
                self.tally.peak_in_flight_files = files;
            }
            if self.get_bytes > self.tally.peak_staged_bytes {
                self.tally.peak_staged_bytes = self.get_bytes;
            }
        }
        proof {
            assert(self@ =~= fetched(w, path@, entry@, e).0);
            assert(seen(ops@) =~= o + fetched(w, path@, entry@, e).1);
            assert forall|n: int| n >= 0 && fits(w, n + 1) implies #[trigger] fits(self@, n) by {
                assert(fits(v, n + 1));
            }
        }
    }

    /// Keeps both versions of a file.
    fn part(&mut self, path: &str, pc: &Entry, android: &Entry, ops: &mut Vec<Op>)
        requires
            bounded(old(self)@),
            fits(old(self)@, 1),
            pc.size <= MAX_FILE,
            android.size <= MAX_FILE,
        ensures
            bounded(final(self)@),
            forall|n: int| n >= 0 && fits(old(self)@, n + 1) ==> #[trigger] fits(final(self)@, n),
            final(self)@ == parted(old(self)@, path@, pc@, android@).0,
            seen(final(ops)@) == seen(old(ops)@) + parted(old(self)@, path@, pc@, android@).1,
    {
        let ghost w = self@;
        let ghost o = seen(ops@);
        proof {
            lemma_weight_positive(w.gets);
            lemma_weight_positive(w.puts);
        }
        let aside = conflict_path(path, android.hash.as_str());
        emit(ops, Op::Snapshot { path: path.to_owned(), entry: pc.duplicate() });
        emit(ops, Op::Get { path: path.to_owned(), entry: android.duplicate() });
        emit(ops, Op::Receive { path: path.to_owned(), entry: android.duplicate() });
        emit(
            ops,
            Op::Install { path: aside.clone(), expected: None, entry: android.duplicate() },
        );
        emit(
            ops,
            Op::Put {
                path: aside.clone(),
                expected: None,
                entry: android.duplicate(),
                staged: Staged::Remote,
            },
        );
        emit(ops, Op::Accept { path: aside.clone() });
        emit(
            ops,
            Op::Put {
                path: path.to_owned(),
                expected: Some(android.hash.clone()),
                entry: pc.duplicate(),
                staged: Staged::Local,
            },
        );
        emit(ops, Op::Accept { path: path.to_owned() });
        emit(ops, Op::Acknowledge { path: path.to_owned(), entry: pc.duplicate() });
        emit(ops, Op::Mark { path: aside.clone() });
        emit(ops, Op::Base { path: aside, hash: Some(android.hash.clone()) });
        emit(ops, Op::Base { path: path.to_owned(), hash: Some(pc.hash.clone()) });
        self.count_moved(3, android.size * 2 + pc.size, 6);
        self.tally.conflicts = self.tally.conflicts + 1;
        proof {
            assert(self@ =~= parted(w, path@, pc@, android@).0);
            assert(seen(ops@) =~= o + parted(w, path@, pc@, android@).1);
            assert forall|n: int| n >= 0 && fits(w, n + 1) implies #[trigger] fits(self@, n) by {}
        }
    }

    /// Takes note that both sides agree already.
    fn agree(&mut self, path: &str, pc: Option<&Entry>, ops: &mut Vec<Op>)
        requires
            bounded(old(self)@),
            fits(old(self)@, 1),
        ensures
            bounded(final(self)@),
            forall|n: int| n >= 0 && fits(old(self)@, n + 1) ==> #[trigger] fits(final(self)@, n),
            final(self)@ == agreed(old(self)@, path@, crate::storage::borrowed_entry(pc)).0,
            seen(final(ops)@) == seen(old(ops)@) + agreed(
                old(self)@,
                path@,
                crate::storage::borrowed_entry(pc),
            ).1,
    {
        let ghost w = self@;
        let ghost o = seen(ops@);
        let ghost p = crate::storage::borrowed_entry(pc);
        proof {
            lemma_weight_positive(w.gets);
            lemma_weight_positive(w.puts);
        }
        match pc {
            None => {
                emit(ops, Op::Base { path: path.to_owned(), hash: None });
            },
            Some(entry) => {
                emit(ops, Op::Acknowledge { path: path.to_owned(), entry: entry.duplicate() });
                self.ack(path, entry, ops);
                emit(ops, Op::Base { path: path.to_owned(), hash: Some(entry.hash.clone()) });
            },
        }
        proof {
            assert(seen(ops@) =~= o + agreed(w, path@, p).1);
            assert forall|n: int| n >= 0 && fits(w, n + 1) implies #[trigger] fits(self@, n) by {}
        }
    }

    /// Empties the window where the next path goes another way.
    fn turn(&mut self, action: Action, stop: bool, ops: &mut Vec<Op>)
        requires
            bounded(old(self)@),
            fits(old(self)@, 0),
        ensures
            bounded(final(self)@),
            forall|n: int| fits(old(self)@, n) ==> #[trigger] fits(final(self)@, n),
            final(self)@ == turned(old(self)@, action, stop).0,
            seen(final(ops)@) == seen(old(ops)@) + turned(old(self)@, action, stop).1,
            action != Action::ToAndroid || stop ==> final(self)@.puts.len() == 0,
            action != Action::ToPc || stop ==> final(self)@.gets.len() == 0,
    {
        let ghost w = self@;
        let ghost o = seen(ops@);
        let ahead = match action {
            Action::ToAndroid => !stop,
            _ => false,
        };
        let back = match action {
            Action::ToPc => !stop,
            _ => false,
        };
        assert(o + Seq::<OpView>::empty() =~= o);
        if self.puts.len() > 0 && !ahead {
            self.drain_puts(ops);
        }
        let ghost v = self@;
        let ghost first = seen(ops@);
        proof {
            lemma_puts_drained_window(w, w.puts);
            assert(first + Seq::<OpView>::empty() =~= first);
        }
        if self.gets.len() > 0 && !back {
            self.drain_gets(ops);
        }
        proof {
            lemma_gets_drained_window(v);
            assert(seen(ops@) =~= o + turned(w, action, stop).1);
            assert forall|n: int| fits(w, n) implies #[trigger] fits(self@, n) by {
                assert(fits(v, n));
            }
        }
    }

    /// Acts upon a path; the result says whether what both sides agree on
    /// has changed.
    fn act(
        &mut self,
        action: Action,
        path: &str,
        base: Option<&str>,
        pc: Option<&Entry>,
        android: Option<&Entry>,
        ops: &mut Vec<Op>,
    ) -> (r: bool)
        requires
            bounded(old(self)@),
            fits(old(self)@, 1),
            pc is Some ==> pc->0.size <= MAX_FILE,
            android is Some ==> android->0.size <= MAX_FILE,
            action != Action::ToAndroid ==> old(self)@.puts.len() == 0,
            action != Action::ToPc ==> old(self)@.gets.len() == 0,
            action == Action::ToAndroid || action == Action::Conflict ==> pc is Some,
            action == Action::ToPc || action == Action::Conflict ==> android is Some,
        ensures
            bounded(final(self)@),
            forall|n: int| n >= 0 && fits(old(self)@, n + 1) ==> #[trigger] fits(final(self)@, n),
            ({
                let p = crate::storage::borrowed_entry(pc);
                let a = crate::storage::borrowed_entry(android);
                let (u, acts) = acted(old(self)@, action, path@, p, a);
                &&& final(self)@ == u
                &&& seen(final(ops)@) == seen(old(ops)@) + acts
                &&& r == (new_base(crate::model::text_of(base), action, p, a)
                    != crate::model::text_of(base))
            }),
    {
        match action {
            Action::Nothing => {
                self.agree(path, pc, ops);
                !same_hash(base, pc)
            },
            Action::ToAndroid => {
                match pc {
                    Some(entry) => {
                        self.send(path, entry, hash_ref(android), ops);
                        entry.size > MAX_STAGED_BYTES && !same_hash(base, pc)
                    },
                    None => false,
                }
            },
            Action::ToPc => {
                match android {
                    Some(entry) => {
                        self.fetch(path, entry, hash_ref(pc), ops);
                        entry.size > MAX_STAGED_BYTES && !same_hash(base, android)
                    },
                    None => false,
                }
            },
            Action::Conflict => {
                match (pc, android) {
                    (Some(x), Some(y)) => {
                        self.part(path, x, y, ops);
                        !same_hash(base, pc)
                    },
                    _ => false,
                }
            },
        }
    }

    /// The steps for one path.
    pub fn step(
        &mut self,
        path: &str,
        index: usize,
        total: usize,
        base: Option<&str>,
        pc: Option<&Entry>,
        android: Option<&Entry>,
        mode: SyncMode,
        remap: Option<RemapPolicy>,
    ) -> (r: Vec<Op>)
        requires
            bounded(old(self)@),
            fits(old(self)@, 1),
            pc is Some ==> pc->0.size <= MAX_FILE,
            android is Some ==> android->0.size <= MAX_FILE,
        ensures
            bounded(final(self)@),
            forall|n: int| n >= 0 && fits(old(self)@, n + 1) ==> #[trigger] fits(final(self)@, n),
            (final(self)@, seen(r@)) == path_step(
                old(self)@,
                path@,
                (index as int, total as int),
                crate::model::text_of(base),
                (crate::storage::borrowed_entry(pc), crate::storage::borrowed_entry(android)),
                (mode, remap),
            ),
    {
        let ghost w = self@;
        let ghost b = crate::model::text_of(base);
        let ghost p = crate::storage::borrowed_entry(pc);
        let ghost a = crate::storage::borrowed_entry(android);
        let mut ops: Vec<Op> = Vec::new();
        assert(seen(ops@) =~= Seq::<OpView>::empty());
        let action = decide(base, pc, android, remap);
        let stop = is_forbidden(mode, base.is_none() && remap.is_some(), action);
        assert(stop == forbidden(mode, b, remap, action));
        proof {
            lemma_weight_positive(w.gets);
            lemma_weight_positive(w.puts);
        }
        assert(fits(w, 0));
        self.turn(action, stop, &mut ops);
        let ghost v = self@;
        let ghost drained = turned(w, action, stop).1;
        assert(seen(ops@) =~= drained);
        assert(fits(v, 1));
        let idle = match action {
            Action::Nothing => true,
            _ => false,
        };
        if !idle {
            emit(&mut ops, Op::Progress { path: path.to_owned(), index, total });
        }
        let ghost shown = if action != Action::Nothing {
            seq![OpView::Progress { path: path@, index: index as int, total: total as int }]
        } else {
            Seq::empty()
        };
        assert(seen(ops@) =~= drained + shown);
        if stop {
            emit(&mut ops, Op::Mark { path: path.to_owned() });
            emit(&mut ops, Op::Persist);
            self.tally.conflicts = self.tally.conflicts + 1;
            proof {
                assert(self@ =~= (WindowView {
                    tally: Tally { conflicts: (v.tally.conflicts + 1) as usize, ..v.tally },
                    ..v
                }));
                assert(seen(ops@) =~= drained + shown + seq![
                    OpView::Mark { path: path@ },
                    OpView::Persist,
                ]);
                assert forall|n: int| n >= 0 && fits(w, n + 1) implies #[trigger] fits(self@, n) by {
                    assert(fits(v, n + 1));
                }
            }
            return ops;
        }
        let conflict = match action {
            Action::Conflict => true,
            _ => false,
        };
        let aside = strip_prefix(path, "Rowd Conflicts/").is_some();
        if !conflict && !aside {
            emit(&mut ops, Op::Clear { path: path.to_owned() });
        }
        let ghost cleared = if action != Action::Conflict && !begins(path@, "Rowd Conflicts/"@) {
            seq![OpView::Clear { path: path@ }]
        } else {
            Seq::empty()
        };
        let ghost head = drained + shown + cleared;
        assert(seen(ops@) =~= head);
        let changed = self.act(action, path, base, pc, android, &mut ops);
        let ghost acts = acted(v, action, path@, p, a).1;
        if changed {
            emit(&mut ops, Op::Persist);
        }
        proof {
            let stored = if changed {
                seq![OpView::Persist]
            } else {
                Seq::empty()
            };
            assert(seen(ops@) =~= drained + shown + cleared + acts + stored);
            assert forall|n: int| n >= 0 && fits(w, n + 1) implies #[trigger] fits(self@, n) by {
                assert(fits(v, n + 1));
            }
        }
        ops
    }
}

/// Draining what was sent leaves what was asked for alone.
proof fn lemma_puts_drained_window(w: WindowView, jobs: Seq<JobView>)
    ensures
        puts_drained(w, jobs).0.gets == w.gets,
        puts_drained(w, jobs).0.puts == Seq::<JobView>::empty(),
    decreases jobs.len(),
{
    if jobs.len() > 0 {
        lemma_puts_drained_window(w, jobs.drop_last());
    }
}

/// Draining what was asked for leaves what was sent alone.
proof fn lemma_gets_drained_window(w: WindowView)
    ensures
        gets_drained(w).0.puts == w.puts,
        gets_drained(w).0.gets == Seq::<JobView>::empty(),
{
    lemma_gets_installed_window(w, w.gets);
}

proof fn lemma_gets_installed_window(w: WindowView, jobs: Seq<JobView>)
    ensures
        gets_installed(w, jobs).0.puts == w.puts,
        gets_installed(w, jobs).0.gets == Seq::<JobView>::empty(),
    decreases jobs.len(),
{
    if jobs.len() > 0 {
        lemma_gets_installed_window(w, jobs.drop_last());
    }
}

/// An owned copy of an optional string.
fn owned(s: Option<&str>) -> (r: Option<String>)
    ensures
        owned_text(r) == crate::model::text_of(s),
{
    match s {
        Some(t) => Some(t.to_owned()),
        None => None,
    }
}

/// The digest of an optional entry.
fn hash_ref<'a>(e: Option<&'a Entry>) -> (r: Option<&'a str>)
    ensures
        crate::model::text_of(r) == hash_of(crate::storage::borrowed_entry(e)),
{
    match e {
        Some(x) => Some(x.hash.as_str()),
        None => None,
    }
}

/// Whether an optional digest is that of an optional entry.
fn same_hash(base: Option<&str>, e: Option<&Entry>) -> (r: bool)
    ensures
        r == (crate::model::text_of(base) == hash_of(crate::storage::borrowed_entry(e))),
{
    match (base, e) {
        (None, None) => true,
        (Some(b), Some(x)) => same(b, x.hash.as_str()),
        _ => false,
    }
}

/// What happens to a path.
pub fn decide(
    base: Option<&str>,
    pc: Option<&Entry>,
    android: Option<&Entry>,
    remap: Option<RemapPolicy>,
) -> (r: Action)
    ensures
        r == decided(
            crate::model::text_of(base),
            crate::storage::borrowed_entry(pc),
            crate::storage::borrowed_entry(android),
            remap,
        ),
{
    if base.is_none() {
        match (remap, pc, android) {
            (Some(policy), Some(x), Some(y)) => {
                if !same(x.hash.as_str(), y.hash.as_str()) {
                    return match policy {
                        RemapPolicy::Pc => Action::ToAndroid,
                        RemapPolicy::Android => Action::ToPc,
                        RemapPolicy::Compare => Action::Conflict,
                    };
                }
            },
            _ => {},
        }
    }
    reconcile(base, hash_ref(pc), hash_ref(android))
}

/// Whether a mode forbids an action.
fn is_forbidden(mode: SyncMode, first_after_remap: bool, action: Action) -> (r: bool)
    ensures
        r == (!first_after_remap && match mode {
            SyncMode::Bidirectional => false,
            SyncMode::ToAndroid => action == Action::ToPc || action == Action::Conflict,
            SyncMode::ToPc => action == Action::ToAndroid || action == Action::Conflict,
        }),
{
    if first_after_remap {
        return false;
    }
    match mode {
        SyncMode::Bidirectional => false,
        SyncMode::ToAndroid => match action {
            Action::ToPc => true,
            Action::Conflict => true,
            _ => false,
        },
        SyncMode::ToPc => match action {
            Action::ToAndroid => true,
            Action::Conflict => true,
            _ => false,
        },
    }
}

/// Why a round ends early.
#[derive(Clone, Debug)]
pub enum SyncError {
    /// The sides cannot hold each other's files.
    Namespace(crate::model::ModelError),
    /// A new path would need a file to be a directory.
    FileDirectory(String),
    /// Two paths differ in case alone.
    CaseCollision(String),
    Protocol(crate::protocol::ProtocolError),
    /// A batch of confirmations is empty or too large.
    InvalidAckBatch,
    Path(crate::model::ModelError),
    Hash(crate::model::ModelError),
    Manifest(crate::model::ModelError),
    MissingContext,
    WrongContext,
    Unexpected,
    /// A file that was sent was not confirmed.
    Unconfirmed,
    ExpectedBlob,
    /// The file is not the version that was asked for any more.
    StaleSource,
}

/// Whether every path can be one of a Share.
pub open spec fn all_sound(paths: Set<Chars>) -> bool {
    forall|p: Chars| #[trigger] paths.contains(p) ==> crate::model::path_fault(p) is None
}

/// Whether every path can be one of a Share.
fn are_sound(paths: &StringSet) -> (r: bool)
    ensures
        r == all_sound(paths@),
{
    let n: usize = paths.len();
    let ghost order = paths.order();
    let mut i: usize = 0;
    while i < n
        invariant
            order == paths.order(),
            n == order.len(),
            lists(order, paths@),
            i <= n,
            forall|j: int|
                0 <= j < i ==> crate::model::path_fault(#[trigger] order[j]) is None,
        decreases n - i,
    {
        let path = paths.at(i);
        if crate::model::validate_path(path.as_str()).is_err() {
            assert(paths@.contains(path@));
            return false;
        }
        i = i + 1;
    }
    proof {
        assert forall|p: Chars| #[trigger] paths@.contains(p) implies crate::model::path_fault(
            p,
        ) is None by {
            assert(order.contains(p));
            let j = choose|j: int| 0 <= j < order.len() && order[j] == p;
            assert(crate::model::path_fault(order[j]) is None);
        }
    }
    true
}

/// No more paths than this are exchanged without a full scan.
pub const MAX_DELTA_PATHS: usize = 1024;

/// Whether a round may ask for single paths: the Share is not being remapped,
/// has been synchronised before, both sides still share a token, and the
/// changed paths are known and few.
pub open spec fn delta_possible(
    s: StateView,
    remap: Option<RemapPolicy>,
    token: bool,
    dirty: Option<Set<Chars>>,
) -> bool {
    remap is None && s.last_sync is Some && token && dirty is Some && dirty->0.len()
        <= MAX_DELTA_PATHS && all_sound(dirty->0)
}

/// Whether a round may ask for single paths.
pub fn may_ask_delta(
    state: &State,
    remap: Option<RemapPolicy>,
    token: bool,
    dirty: &Option<StringSet>,
) -> (r: bool)
    ensures
        r == delta_possible(
            state@,
            remap,
            token,
            match dirty {
                Some(d) => Some(d@),
                None => None,
            },
        ),
{
    if remap.is_some() || state.last_sync.is_none() || !token {
        return false;
    }
    match dirty {
        None => false,
        Some(d) => d.len() <= MAX_DELTA_PATHS && are_sound(d),
    }
}

/// Whether an answer about single paths can be used: few and sound paths, and
/// a sound manifest of some of them.
pub fn delta_answer_sound(paths: &StringSet, files: &Manifest) -> (r: bool)
    ensures
        r == (paths@.len() <= MAX_DELTA_PATHS && all_sound(paths@) && files@.dom().subset_of(paths@)
            && crate::model::valid_manifest(files@)),
{
    if paths.len() > MAX_DELTA_PATHS || !are_sound(paths) {
        return false;
    }
    let n: usize = files.len();
    let ghost order = files.order();
    let mut i: usize = 0;
    while i < n
        invariant
            order == files.order(),
            n == order.len(),
            lists(order, files@.dom()),
            i <= n,
            forall|j: int| 0 <= j < i ==> paths@.contains(#[trigger] order[j]),
        decreases n - i,
    {
        let path = files.key_at(i);
        if !paths.contains(path.as_str()) {
            assert(files@.dom().contains(path@));
            return false;
        }
        i = i + 1;
    }
    proof {
        assert forall|p: Chars| files@.dom().contains(p) implies paths@.contains(p) by {
            assert(order.contains(p));
            let j = choose|j: int| 0 <= j < order.len() && order[j] == p;
            assert(paths@.contains(order[j]));
        }
    }
    crate::model::validate_manifest(files).is_ok()
}

/// A known file is missing on one side, so single paths cannot tell the whole
/// story.
pub open spec fn known_missing(
    base: Map<Chars, Chars>,
    paths: Set<Chars>,
    pc: Set<Chars>,
    android: Set<Chars>,
) -> bool {
    exists|p: Chars| #[trigger]
        paths.contains(p) && base.dom().contains(p) && (!pc.contains(p) || !android.contains(p))
}

/// Whether a known file is missing on one side.
pub fn delta_incomplete(state: &State, paths: &StringSet, pc: &Manifest, android: &Manifest) -> (r:
    bool)
    ensures
        r == known_missing(state@.files, paths@, pc@.dom(), android@.dom()),
{
    let n: usize = paths.len();
    let ghost order = paths.order();
    let mut i: usize = 0;
    while i < n
        invariant
            order == paths.order(),
            n == order.len(),
            lists(order, paths@),
            i <= n,
            forall|j: int|
                0 <= j < i ==> !(state@.files.dom().contains(#[trigger] order[j]) && (
                !pc@.dom().contains(order[j]) || !android@.dom().contains(order[j]))),
        decreases n - i,
    {
        let path = paths.at(i);
        if state.files.contains(path.as_str()) && (!pc.contains(path.as_str())
            || !android.contains(path.as_str())) {
            assert(paths@.contains(path@));
            return true;
        }
        i = i + 1;
    }
    proof {
        assert forall|p: Chars| #[trigger] paths@.contains(p) implies !(
        state@.files.dom().contains(p) && (!pc@.dom().contains(p) || !android@.dom().contains(p))) by {
            assert(order.contains(p));
            let j = choose|j: int| 0 <= j < order.len() && order[j] == p;
            assert(order[j] == p);
        }
    }
    false
}

/// The paths of a full round: those of both sides and those agreed on.
pub fn full_paths(state: &State, pc: &Manifest, android: &Manifest) -> (r: StringSet)
    ensures
        r@ == pc@.dom().union(android@.dom()).union(state@.files.dom()),
{
    let mut r = pc.keys();
    r.absorb(&android.keys());
    r.absorb(&state.files.keys());
    r
}

/// The phone's files without those that the policy leaves alone.
pub fn without_excluded(android: &Manifest, policy: &Ignore) -> (r: Manifest)
    ensures
        r@ == crate::journal::visible(android@, policy@),
{
    let mut r: Manifest = StringMap::new();
    let n: usize = android.len();
    let ghost order = android.order();
    let mut i: usize = 0;
    while i < n
        invariant
            order == android.order(),
            n == order.len(),
            lists(order, android@.dom()),
            i <= n,
            forall|k: Chars| #[trigger]
                r@.dom().contains(k) <==> order.take(i as int).contains(k) && !ignored(
                    policy@,
                    k,
                    false,
                ),
            forall|k: Chars| r@.dom().contains(k) ==> #[trigger] r@[k] == android@[k],
        decreases n - i,
    {
        let key = android.key_at(i);
        proof {
            crate::collections::lemma_take_contains(order, i as int);
        }
        if !policy.matches(key.as_str(), false) {
            let value = android.value_at(i).duplicate();
            r.insert(key.clone(), value);
        }
        i = i + 1;
    }
    proof {
        assert(order.take(n as int) =~= order);
        assert(r@ =~= crate::journal::visible(android@, policy@));
    }
    r
}

/// A new path that the agreed files leave no room for: a file above it or
/// below it, or one that differs in case alone.
pub open spec fn crowded(base: Set<Chars>, path: Chars) -> Option<bool> {
    if base.contains(path) {
        None
    } else if exists|k: Chars| #[trigger]
        base.contains(k) && (crate::model::holds_below(k, path) || crate::model::holds_below(
            path,
            k,
        )) {
        Some(true)
    } else if exists|k: Chars| #[trigger]
        base.contains(k) && crate::primitives::lowercase(k) == crate::primitives::lowercase(path) {
        Some(false)
    } else {
        None
    }
}

/// Whether the agreed files leave room for a path.
fn is_crowded(base: &StringMap<String>, path: &str) -> (r: Option<bool>)
    ensures
        r == crowded(base@.dom(), path@),
{
    if base.contains(path) {
        return None;
    }
    let n: usize = base.len();
    let ghost order = base.order();
    let low = path.to_lowercase();
    let mut nested = false;
    let mut folded = false;
    let mut i: usize = 0;
    while i < n
        invariant
            order == base.order(),
            n == order.len(),
            lists(order, base@.dom()),
            low@ == crate::primitives::lowercase(path@),
            i <= n,
            nested == exists|j: int|
                0 <= j < i && (crate::model::holds_below(#[trigger] order[j], path@)
                    || crate::model::holds_below(path@, order[j])),
            folded == exists|j: int|
                0 <= j < i && crate::primitives::lowercase(#[trigger] order[j])
                    == crate::primitives::lowercase(path@),
        decreases n - i,
    {
        let key = base.key_at(i);
        if is_below(key.as_str(), path) || is_below(path, key.as_str()) {
            assert(crate::model::holds_below(order[i as int], path@) || crate::model::holds_below(
                path@,
                order[i as int],
            ));
            nested = true;
        }
        let other = key.as_str().to_lowercase();
        if same(other.as_str(), low.as_str()) {
            assert(crate::primitives::lowercase(order[i as int]) == low@);
            folded = true;
        }
        i = i + 1;
    }
    proof {
        if nested {
            let j = choose|j: int|
                0 <= j < n && (crate::model::holds_below(#[trigger] order[j], path@)
                    || crate::model::holds_below(path@, order[j]));
            assert(order.contains(order[j]));
            assert(base@.dom().contains(order[j]));
        }
        if folded {
            let j = choose|j: int|
                0 <= j < n && crate::primitives::lowercase(#[trigger] order[j])
                    == crate::primitives::lowercase(path@);
            assert(order.contains(order[j]));
            assert(base@.dom().contains(order[j]));
        }
        assert forall|k: Chars| #[trigger] base@.dom().contains(k) implies order.contains(k) by {}
        if exists|k: Chars| #[trigger]
            base@.dom().contains(k) && (crate::model::holds_below(k, path@)
                || crate::model::holds_below(path@, k)) {
            let k = choose|k: Chars| #[trigger]
                base@.dom().contains(k) && (crate::model::holds_below(k, path@)
                    || crate::model::holds_below(path@, k));
            let j = choose|j: int| 0 <= j < order.len() && order[j] == k;
            assert(crate::model::holds_below(order[j], path@) || crate::model::holds_below(
                path@,
                order[j],
            ));
        }
        if exists|k: Chars| #[trigger]
            base@.dom().contains(k) && crate::primitives::lowercase(k)
                == crate::primitives::lowercase(path@) {
            let k = choose|k: Chars| #[trigger]
                base@.dom().contains(k) && crate::primitives::lowercase(k)
                    == crate::primitives::lowercase(path@);
            let j = choose|j: int| 0 <= j < order.len() && order[j] == k;
            assert(crate::primitives::lowercase(order[j]) == crate::primitives::lowercase(path@));
        }
    }
    if nested {
        Some(true)
    } else if folded {
        Some(false)
    } else {
        None
    }
}

/// Whether `file` would have to be a directory for `path`.
fn is_below(file: &str, path: &str) -> (r: bool)
    ensures
        r == crate::model::holds_below(file@, path@),
{
    match strip_prefix(path, file) {
        None => false,
        Some(rest) => {
            let v = crate::text::chars_of(rest.as_str());
            if v.len() > 0 && v[0] == '/' {
                assert(path@[file@.len() as int] == rest@[0]);
                true
            } else {
                proof {
                    if crate::model::holds_below(file@, path@) {
                        assert(rest@[0] == path@[file@.len() as int]);
                    }
                }
                false
            }
        },
    }
}

/// The paths of both sides, then whether each is crowded; the first that is
/// ends the round.
pub open spec fn first_crowded(base: Set<Chars>, all: Seq<Chars>, i: int) -> bool {
    &&& 0 <= i < all.len()
    &&& crowded(base, all[i]) is Some
    &&& forall|j: int| 0 <= j < i ==> crowded(base, #[trigger] all[j]) is None
}

/// Two paths of a round differ in case alone; the `i`-th is the first that
/// follows such a one.
pub open spec fn first_folded(order: Seq<Chars>, i: int) -> bool {
    &&& 0 <= i < order.len()
    &&& exists|j: int|
        0 <= j < i && crate::primitives::lowercase(#[trigger] order[j])
            == crate::primitives::lowercase(order[i])
    &&& forall|a: int, b: int|
        0 <= a < b < i ==> crate::primitives::lowercase(#[trigger] order[a])
            != crate::primitives::lowercase(#[trigger] order[b])
}

/// Refuses a round that would have to write a path that some file is in the
/// way of. After single paths were exchanged, the agreed files count as well.
pub fn check_namespace(
    state: &State,
    pc: &Manifest,
    android: &Manifest,
    paths: &StringSet,
    used_delta: bool,
) -> (r: Result<(), SyncError>)
    ensures
        r is Ok <==> {
            &&& crate::model::compatible(pc@.dom(), android@.dom())
            &&& used_delta ==> forall|p: Chars| #[trigger]
                pc@.dom().union(android@.dom()).contains(p) ==> crowded(state@.files.dom(), p)
                    is None
            &&& forall|p: Chars, q: Chars|
                #![trigger paths@.contains(p), paths@.contains(q)]
                paths@.contains(p) && paths@.contains(q) && crate::primitives::lowercase(p)
                    == crate::primitives::lowercase(q) ==> p == q
        },
        r is Err ==> match r->Err_0 {
            SyncError::Namespace(e) => !crate::model::compatible(pc@.dom(), android@.dom())
                && crate::model::namespace_fault(
                crate::model::chain(pc.order(), android.order()),
                e@,
            ),
            SyncError::FileDirectory(p) => crate::model::compatible(pc@.dom(), android@.dom())
                && used_delta && exists|i: int| #[trigger]
                first_crowded(
                    state@.files.dom(),
                    crate::model::chain(pc.order(), android.order()),
                    i,
                ) && p@ == crate::model::chain(pc.order(), android.order())[i] && crowded(
                    state@.files.dom(),
                    p@,
                ) == Some(true),
            SyncError::CaseCollision(p) => crate::model::compatible(pc@.dom(), android@.dom()) && {
                ||| used_delta && exists|i: int| #[trigger]
                    first_crowded(
                        state@.files.dom(),
                        crate::model::chain(pc.order(), android.order()),
                        i,
                    ) && p@ == crate::model::chain(pc.order(), android.order())[i] && crowded(
                        state@.files.dom(),
                        p@,
                    ) == Some(false)
                ||| (used_delta ==> forall|q: Chars| #[trigger]
                    pc@.dom().union(android@.dom()).contains(q) ==> crowded(
                        state@.files.dom(),
                        q,
                    ) is None) && exists|i: int| #[trigger]
                    first_folded(paths.order(), i) && p@ == paths.order()[i]
            },
            _ => false,
        },
{
    match crate::model::validate_cross_peer_namespace(pc, android) {
        Ok(()) => {},
        Err(e) => {
            return Err(SyncError::Namespace(e));
        },
    }
    let ghost base = state@.files.dom();
    let ghost all = crate::model::chain(pc.order(), android.order());
    let n: usize = pc.len();
    let m: usize = android.len();
    if used_delta {
        let mut i: usize = 0;
        while i < n
            invariant
                base == state@.files.dom(),
                used_delta,
                crate::model::compatible(pc@.dom(), android@.dom()),
                all == crate::model::chain(pc.order(), android.order()),
                n == pc.order().len(),
                lists(pc.order(), pc@.dom()),
                i <= n,
                forall|j: int| 0 <= j < i ==> crowded(base, #[trigger] all[j]) is None,
            decreases n - i,
        {
            let path = pc.key_at(i);
            assert(all[i as int] == path@);
            match is_crowded(&state.files, path.as_str()) {
                Some(nested) => {
                    proof {
                        assert(first_crowded(base, all, i as int));
                        assert(pc@.dom().union(android@.dom()).contains(path@));
                    }
                    if nested {
                        return Err(SyncError::FileDirectory(path.clone()));
                    }
                    return Err(SyncError::CaseCollision(path.clone()));
                },
                None => {},
            }
            i = i + 1;
        }
        i = 0;
        while i < m
            invariant
                base == state@.files.dom(),
                used_delta,
                crate::model::compatible(pc@.dom(), android@.dom()),
                all == crate::model::chain(pc.order(), android.order()),
                n == pc.order().len(),
                m == android.order().len(),
                lists(android.order(), android@.dom()),
                i <= m,
                forall|j: int| 0 <= j < n + i ==> crowded(base, #[trigger] all[j]) is None,
            decreases m - i,
        {
            let path = android.key_at(i);
            assert(all[n + i] == path@);
            match is_crowded(&state.files, path.as_str()) {
                Some(nested) => {
                    proof {
                        assert(first_crowded(base, all, n + i));
                        assert(pc@.dom().union(android@.dom()).contains(path@));
                    }
                    if nested {
                        return Err(SyncError::FileDirectory(path.clone()));
                    }
                    return Err(SyncError::CaseCollision(path.clone()));
                },
                None => {},
            }
            i = i + 1;
        }
        proof {
            assert forall|p: Chars| #[trigger] pc@.dom().union(android@.dom()).contains(
                p,
            ) implies crowded(base, p) is None by {
                if pc@.dom().contains(p) {
                    assert(pc.order().contains(p));
                    let j = choose|j: int| 0 <= j < pc.order().len() && pc.order()[j] == p;
                    assert(all[j] == p);
                } else {
                    assert(android.order().contains(p));
                    let j = choose|j: int|
                        0 <= j < android.order().len() && android.order()[j] == p;
                    assert(all[n + j] == p);
                }
            }
        }
    }
    let k: usize = paths.len();
    let ghost order = paths.order();
    let mut folded = StringSet::new();
    let mut i: usize = 0;
    while i < k
        invariant
            base == state@.files.dom(),
            crate::model::compatible(pc@.dom(), android@.dom()),
            used_delta ==> forall|q: Chars| #[trigger]
                pc@.dom().union(android@.dom()).contains(q) ==> crowded(base, q) is None,
            order == paths.order(),
            k == order.len(),
            lists(order, paths@),
            i <= k,
            forall|f: Chars| #[trigger]
                folded@.contains(f) <==> exists|j: int|
                    0 <= j < i && crate::primitives::lowercase(#[trigger] order[j]) == f,
            forall|a: int, b: int|
                0 <= a < b < i ==> crate::primitives::lowercase(#[trigger] order[a])
                    != crate::primitives::lowercase(#[trigger] order[b]),
        decreases k - i,
    {
        let path = paths.at(i);
        let low = path.as_str().to_lowercase();
        let ghost was = folded@;
        let ghost f0 = low@;
        let fresh = folded.insert(low);
        if !fresh {
            proof {
                assert(was.contains(f0));
                assert(first_folded(order, i as int));
                let j = choose|j: int|
                    0 <= j < i && crate::primitives::lowercase(#[trigger] order[j]) == f0;
                assert(paths@.contains(order[j])) by {
                    assert(order.contains(order[j]));
                }
                assert(paths@.contains(order[i as int]));
                crate::collections::lemma_ascending_distinct(order);
                assert(order[j] != order[i as int]);
            }
            return Err(SyncError::CaseCollision(path.clone()));
        }
        proof {
            assert forall|f: Chars| #[trigger] folded@.contains(f) <==> exists|j: int|
                0 <= j < i + 1 && crate::primitives::lowercase(#[trigger] order[j]) == f by {
                if f == f0 {
                    assert(crate::primitives::lowercase(order[i as int]) == f);
                }
                if was.contains(f) {
                    let j = choose|j: int|
                        0 <= j < i && crate::primitives::lowercase(#[trigger] order[j]) == f;
                    assert(crate::primitives::lowercase(order[j]) == f);
                }
                if exists|j: int|
                    0 <= j < i + 1 && crate::primitives::lowercase(#[trigger] order[j]) == f {
                    let j = choose|j: int|
                        0 <= j < i + 1 && crate::primitives::lowercase(#[trigger] order[j]) == f;
                    if j < i {
                        assert(was.contains(f));
                    }
                }
            }
            assert forall|a: int, b: int| 0 <= a < b < i + 1 implies crate::primitives::lowercase(
                #[trigger] order[a],
            ) != crate::primitives::lowercase(#[trigger] order[b]) by {
                if b == i && crate::primitives::lowercase(order[a]) == f0 {
                    assert(was.contains(f0));
                }
            }
        }
        i = i + 1;
    }
    proof {
        assert forall|p: Chars, q: Chars|
            #![trigger paths@.contains(p), paths@.contains(q)]
            paths@.contains(p) && paths@.contains(q) && crate::primitives::lowercase(p)
                == crate::primitives::lowercase(q) implies p == q by {
            assert(order.contains(p) && order.contains(q));
            let a = choose|a: int| 0 <= a < order.len() && order[a] == p;
            let b = choose|b: int| 0 <= b < order.len() && order[b] == q;
            if a < b {
                assert(crate::primitives::lowercase(order[a]) != crate::primitives::lowercase(
                    order[b],
                ));
            } else if b < a {
                assert(crate::primitives::lowercase(order[b]) != crate::primitives::lowercase(
                    order[a],
                ));
            }
        }
    }
    Ok(())
}

impl State {
    /// Forgets conflicts over paths that neither side holds any more.
    pub fn forget_gone(&mut self, pc: &Manifest, android: &Manifest)
        ensures
            final(self)@ == (StateView {
                conflicts: old(self)@.conflicts.filter(
                    |p: Chars| pc@.dom().contains(p) || android@.dom().contains(p),
                ),
                ..old(self)@
            }),
    {
        let ghost s = self@;
        let list = self.conflicts.to_list();
        let ghost order = crate::text::views(list@);
        let mut kept = StringSet::new();
        let mut i: usize = 0;
        while i < list.len()
            invariant
                order == crate::text::views(list@),
                lists(order, s.conflicts),
                i <= list@.len(),
                forall|k: Chars| #[trigger]
                    kept@.contains(k) <==> order.take(i as int).contains(k) && (
                    pc@.dom().contains(k) || android@.dom().contains(k)),
            decreases list@.len() - i,
        {
            assert(order[i as int] == list@[i as int]@);
            proof {
                crate::collections::lemma_take_contains(order, i as int);
            }
            if pc.contains(list[i].as_str()) || android.contains(list[i].as_str()) {
                kept.insert(list[i].clone());
            }
            i = i + 1;
        }
        self.conflicts = kept;
        proof {
            assert(order.take(i as int) =~= order);
            assert(self@.conflicts =~= s.conflicts.filter(
                |p: Chars| pc@.dom().contains(p) || android@.dom().contains(p),
            ));
            assert(self@ =~= (StateView {
                conflicts: s.conflicts.filter(
                    |p: Chars| pc@.dom().contains(p) || android@.dom().contains(p),
                ),
                ..s
            }));
        }
    }
}

/// What was counted during one round of one Share.
#[derive(Clone, Copy, Debug, PartialEq, Eq, Structural)]
pub struct ShareMetrics {
    pub activation_ms: u128,
    pub share_queue_wait_ms: u128,
    pub configure_ms: u128,
    pub scan_ms: u128,
    pub total_ms: u128,
    pub files_enumerated: u64,
    pub manifest_entries: u64,
    pub paths_reconciled: u64,
    pub manifest_bytes: u64,
    pub manifest_ms: u128,
    pub files_hashed: u64,
    pub bytes_hashed: u64,
    pub staging_copies: u64,
    pub bytes_transferred: u64,
    pub control_messages: u64,
    pub ack_messages: u64,
    pub ack_entries: u64,
    pub full_scans: u64,
    pub first_transfer_ms: Option<u128>,
    pub first_byte_ms: Option<u128>,
    pub snapshot_ms: u128,
    pub install_ms: u128,
    pub reconcile_ms: u128,
    pub state_persist_ms: u128,
    pub state_persist_count: u64,
    pub state_bytes_written: u64,
    pub transfer_ms: u128,
    pub wait_peer_ms: u128,
    pub socket_idle_ms: u128,
    pub peak_in_flight_files: u64,
    pub peak_staged_bytes: u64,
}

/// Nothing was counted.
pub open spec fn no_share_metrics() -> ShareMetrics {
    ShareMetrics {
        activation_ms: 0,
        share_queue_wait_ms: 0,
        configure_ms: 0,
        scan_ms: 0,
        total_ms: 0,
        files_enumerated: 0,
        manifest_entries: 0,
        paths_reconciled: 0,
        manifest_bytes: 0,
        manifest_ms: 0,
        files_hashed: 0,
        bytes_hashed: 0,
        staging_copies: 0,
        bytes_transferred: 0,
        control_messages: 0,
        ack_messages: 0,
        ack_entries: 0,
        full_scans: 0,
        first_transfer_ms: None,
        first_byte_ms: None,
        snapshot_ms: 0,
        install_ms: 0,
        reconcile_ms: 0,
        state_persist_ms: 0,
        state_persist_count: 0,
        state_bytes_written: 0,
        transfer_ms: 0,
        wait_peer_ms: 0,
        socket_idle_ms: 0,
        peak_in_flight_files: 0,
        peak_staged_bytes: 0,
    }
}

impl View for ShareMetrics {
    type V = ShareMetrics;

    open spec fn view(&self) -> ShareMetrics {
        *self
    }
}

impl Duplicate for ShareMetrics {
    fn duplicate(&self) -> (r: Self) {
        *self
    }
}

impl Default for ShareMetrics {
    fn default() -> (r: Self)
        ensures
            r == no_share_metrics(),
    {
        ShareMetrics {
            activation_ms: 0,
            share_queue_wait_ms: 0,
            configure_ms: 0,
            scan_ms: 0,
            total_ms: 0,
            files_enumerated: 0,
            manifest_entries: 0,
            paths_reconciled: 0,
            manifest_bytes: 0,
            manifest_ms: 0,
            files_hashed: 0,
            bytes_hashed: 0,
            staging_copies: 0,
            bytes_transferred: 0,
            control_messages: 0,
            ack_messages: 0,
            ack_entries: 0,
            full_scans: 0,
            first_transfer_ms: None,
            first_byte_ms: None,
            snapshot_ms: 0,
            install_ms: 0,
            reconcile_ms: 0,
            state_persist_ms: 0,
            state_persist_count: 0,
            state_bytes_written: 0,
            transfer_ms: 0,
            wait_peer_ms: 0,
            socket_idle_ms: 0,
            peak_in_flight_files: 0,
            peak_staged_bytes: 0,
        }
    }
}

/// The outcome of a round.
#[derive(Debug)]
pub struct Report {
    pub transferred: usize,
    pub conflicts: usize,
    pub shares_processed: usize,
    pub pending_wakes: Vec<String>,
    pub round_deferred: bool,
    pub metrics: ShareMetrics,
}

/// A round of one Share, path by path.
pub struct Round {
    pc: Manifest,
    android: Manifest,
    paths: Vec<String>,
    index: usize,
    mode: SyncMode,
    remap: Option<RemapPolicy>,
    window: Window,
}

/// A [`Round`] as a mathematical value.
#[verifier::ext_equal]
pub struct RoundView {
    pub pc: Map<Chars, EntryView>,
    pub android: Map<Chars, EntryView>,
    pub paths: Seq<Chars>,
    pub index: int,
    pub mode: SyncMode,
    pub remap: Option<RemapPolicy>,
    pub window: WindowView,
}

impl View for Round {
    type V = RoundView;

    closed spec fn view(&self) -> RoundView {
        RoundView {
            pc: self.pc@,
            android: self.android@,
            paths: crate::text::views(self.paths@),
            index: self.index as int,
            mode: self.mode,
            remap: self.remap,
            window: self.window@,
        }
    }
}

/// No file of a manifest is larger than a file may be.
pub open spec fn sizes_sound(files: Map<Chars, EntryView>) -> bool {
    forall|p: Chars| #[trigger] files.dom().contains(p) ==> files[p].size <= MAX_FILE
}

/// A round can go on: the window is within its bounds, and the counters have
/// room for what is left.
pub open spec fn ready(r: RoundView) -> bool {
    &&& 0 <= r.index <= r.paths.len()
    &&& bounded(r.window)
    &&& fits(r.window, r.paths.len() - r.index)
    &&& sizes_sound(r.pc)
    &&& sizes_sound(r.android)
}

/// How many paths one round can count.
pub const MAX_ROUND_PATHS: usize = 0x1000_0000;

/// The steps for the next path of a round, given what was agreed on.
pub open spec fn next_step(r: RoundView, s: StateView, policy: Seq<Chars>) -> (
    RoundView,
    Seq<OpView>,
) {
    let path = r.paths[r.index];
    let (w, ops) = if ignored(policy, path, false) {
        (r.window, Seq::empty())
    } else {
        path_step(
            r.window,
            path,
            (r.index, r.paths.len() as int),
            look(s.files, path),
            (look(r.pc, path), look(r.android, path)),
            (r.mode, r.remap),
        )
    };
    (RoundView { index: r.index + 1, window: w, ..r }, ops)
}

/// The steps behind the last path: everything on its way arrives, and the
/// last confirmations are sent.
pub open spec fn last_steps(r: RoundView) -> (RoundView, Seq<OpView>) {
    let (a, x) = puts_drained(r.window, r.window.puts);
    let (b, y) = gets_drained(a);
    let (c, z) = flushed(b);
    (
        RoundView { window: c, ..r },
        x + y + z + seq![
            OpView::Progress {
                path: Seq::empty(),
                index: r.paths.len() as int,
                total: r.paths.len() as int,
            },
        ],
    )
}

impl Round {
    /// A round over the given paths.
    pub fn new(
        pc: Manifest,
        android: Manifest,
        paths: &StringSet,
        mode: SyncMode,
        remap: Option<RemapPolicy>,
    ) -> (r: Self)
        requires
            sizes_sound(pc@),
            sizes_sound(android@),
            paths@.len() <= MAX_ROUND_PATHS,
        ensures
            lists(r@.paths, paths@),
            r@ == (RoundView {
                pc: pc@,
                android: android@,
                paths: r@.paths,
                index: 0,
                mode,
                remap,
                window: empty_window(),
            }),
            ready(r@),
    {
        let n: usize = paths.len();
        let list = paths.to_list();
        let r = Round { pc, android, paths: list, index: 0, mode, remap, window: Window::new() };
        proof {
            crate::collections::lemma_listing_unique(r@.paths, paths.order(), paths@);
            assert(weight(Seq::<JobView>::empty()) == 0);
            assert(fits(r@.window, n as int));
            assert(r@ =~= (RoundView {
                pc: pc@,
                android: android@,
                paths: r@.paths,
                index: 0,
                mode,
                remap,
                window: empty_window(),
            }));
        }
        r
    }

    /// The steps for the next path, or nothing behind the last one.
    pub fn next(&mut self, state: &State, policy: &Ignore) -> (r: Option<Vec<Op>>)
        requires
            ready(old(self)@),
        ensures
            ready(final(self)@),
            r is None <==> old(self)@.index == old(self)@.paths.len(),
            r is None ==> final(self)@ == old(self)@,
            r is Some ==> (final(self)@, seen(r->0@)) == next_step(old(self)@, state@, policy@),
    {
        let ghost was = self@;
        if self.index == self.paths.len() {
            return None;
        }
        let total: usize = self.paths.len();
        let path = self.paths[self.index].clone();
        assert(was.paths[was.index] == path@);
        proof {
            lemma_weight_positive(was.window.puts);
            lemma_weight_positive(was.window.gets);
            assert(fits(was.window, 1));
            assert(fits(was.window, was.paths.len() - was.index - 1));
        }
        if policy.matches(path.as_str(), false) {
            self.index = self.index + 1;
            let r: Vec<Op> = Vec::new();
            assert(seen(r@) =~= Seq::<OpView>::empty());
            assert(self@ =~= next_step(was, state@, policy@).0);
            return Some(r);
        }
        let base = match state.files.get(path.as_str()) {
            Some(h) => Some(h.as_str()),
            None => None,
        };
        let p = self.pc.get(path.as_str());
        let a = self.android.get(path.as_str());
        let index: usize = self.index;
        let ops = self.window.step(path.as_str(), index, total, base, p, a, self.mode, self.remap);
        self.index = self.index + 1;
        proof {
            assert(fits(was.window, (was.paths.len() - was.index - 1) + 1));
            assert(fits(self@.window, was.paths.len() - was.index - 1));
            assert(self@ =~= next_step(was, state@, policy@).0);
        }
        Some(ops)
    }

    /// The steps behind the last path.
    pub fn finish(&mut self) -> (r: Vec<Op>)
        requires
            ready(old(self)@),
        ensures
            (final(self)@, seen(r@)) == last_steps(old(self)@),
    {
        let ghost was = self@;
        let mut ops: Vec<Op> = Vec::new();
        assert(seen(ops@) =~= Seq::<OpView>::empty());
        proof {
            lemma_weight_positive(was.window.puts);
            lemma_weight_positive(was.window.gets);
            assert(fits(was.window, 0));
        }
        self.window.drain_puts(&mut ops);
        let ghost x = seen(ops@);
        assert(fits(self@.window, 0));
        self.window.drain_gets(&mut ops);
        let ghost y = seen(ops@);
        assert(fits(self@.window, 0));
        proof {
            lemma_weight_positive(self@.window.puts);
            lemma_weight_positive(self@.window.gets);
        }
        self.window.flush(&mut ops);
        let total: usize = self.paths.len();
        let none = String::new();
        emit(&mut ops, Op::Progress { path: none, index: total, total });
        proof {
            assert(self@ =~= last_steps(was).0);
            assert(seen(ops@) =~= last_steps(was).1);
        }
        ops
    }

    /// What the round did so far.
    pub fn tally(&self) -> (r: Tally)
        ensures
            r == self@.window.tally,
    {
        self.window.tally()
    }
}

/// The difference of two counters, not below zero.
pub open spec fn since(now: u64, earlier: u64) -> u64 {
    if now >= earlier {
        (now - earlier) as u64
    } else {
        0
    }
}

/// How much a counter grew.
fn grown(now: u64, earlier: u64) -> (r: u64)
    ensures
        r == since(now, earlier),
{
    if now >= earlier {
        now - earlier
    } else {
        0
    }
}

/// What a store counted between two moments; staged copies are left out.
pub fn metrics_since(before: crate::protocol::StoreMetrics, after: crate::protocol::StoreMetrics) -> (r:
    crate::protocol::StoreMetrics)
    ensures
        r.files_enumerated == since(after.files_enumerated, before.files_enumerated),
        r.files_hashed == since(after.files_hashed, before.files_hashed),
        r.bytes_hashed == since(after.bytes_hashed, before.bytes_hashed),
        r.full_scans == since(after.full_scans, before.full_scans),
        r.staging_copies == 0,
{
    crate::protocol::StoreMetrics {
        files_enumerated: grown(after.files_enumerated, before.files_enumerated),
        files_hashed: grown(after.files_hashed, before.files_hashed),
        bytes_hashed: grown(after.bytes_hashed, before.bytes_hashed),
        staging_copies: 0,
        full_scans: grown(after.full_scans, before.full_scans),
    }
}

impl State {
    /// Takes note of a finished round; the result says whether it was the
    /// first, so that the state has to be stored.
    pub fn complete(&mut self, now: u64) -> (r: bool)
        ensures
            r == (old(self)@.last_sync is None),
            final(self)@ == (StateView { last_sync: Some(now), ..old(self)@ }),
    {
        let first = self.last_sync.is_none();
        self.last_sync = Some(now);
        first
    }
}

/// What a round did, as it is reported: the peer's counters and what the own
/// store counted from `before` over `scanned` to `after`.
pub fn round_metrics(
    tally: Tally,
    peer: crate::protocol::StoreMetrics,
    before: crate::protocol::StoreMetrics,
    scanned: crate::protocol::StoreMetrics,
    after: crate::protocol::StoreMetrics,
    android_count: usize,
    paths: usize,
    manifest_bytes: u64,
    used_delta: bool,
) -> (r: ShareMetrics)
    requires
        peer.full_scans + since(scanned.full_scans, before.full_scans) <= u64::MAX,
        peer.files_enumerated + since(scanned.files_enumerated, before.files_enumerated)
            <= u64::MAX,
        peer.files_hashed + since(after.files_hashed, before.files_hashed) <= u64::MAX,
        peer.bytes_hashed + since(after.bytes_hashed, before.bytes_hashed) <= u64::MAX,
        tally.control_messages + 4 + crate::protocol::chunk_count(android_count as int) <= u64::MAX,
        android_count <= crate::model::MAX_FILES,
    ensures
        r == (ShareMetrics {
            full_scans: (peer.full_scans + since(scanned.full_scans, before.full_scans)) as u64,
            files_enumerated: (peer.files_enumerated + since(
                scanned.files_enumerated,
                before.files_enumerated,
            )) as u64,
            manifest_entries: android_count as u64,
            paths_reconciled: paths as u64,
            manifest_bytes,
            files_hashed: (peer.files_hashed + since(after.files_hashed, before.files_hashed)) as u64,
            bytes_hashed: (peer.bytes_hashed + since(after.bytes_hashed, before.bytes_hashed)) as u64,
            staging_copies: since(after.staging_copies, before.staging_copies),
            bytes_transferred: tally.bytes_transferred,
            control_messages: (tally.control_messages + 4 + (if used_delta {
                0
            } else {
                crate::protocol::chunk_count(android_count as int)
            })) as u64,
            ack_messages: tally.ack_messages,
            ack_entries: tally.ack_entries,
            peak_in_flight_files: tally.peak_in_flight_files,
            peak_staged_bytes: tally.peak_staged_bytes,
            ..no_share_metrics()
        }),
{
    let chunks: u64 = if used_delta {
        0
    } else {
        ((android_count + 1023) / 1024) as u64
    };
    let mut r = ShareMetrics::default();
    r.full_scans = peer.full_scans + grown(scanned.full_scans, before.full_scans);
    r.files_enumerated = peer.files_enumerated + grown(
        scanned.files_enumerated,
        before.files_enumerated,
    );
    r.manifest_entries = android_count as u64;
    r.paths_reconciled = paths as u64;
    r.manifest_bytes = manifest_bytes;
    r.files_hashed = peer.files_hashed + grown(after.files_hashed, before.files_hashed);
    r.bytes_hashed = peer.bytes_hashed + grown(after.bytes_hashed, before.bytes_hashed);
    r.staging_copies = grown(after.staging_copies, before.staging_copies);
    r.bytes_transferred = tally.bytes_transferred;
    r.control_messages = tally.control_messages + 4 + chunks;
    r.ack_messages = tally.ack_messages;
    r.ack_entries = tally.ack_entries;
    r.peak_in_flight_files = tally.peak_in_flight_files;
    r.peak_staged_bytes = tally.peak_staged_bytes;
    r
}

/// What the phone is asked to do.
pub enum Task {
    /// Take note of confirmed versions.
    Acknowledge { entries: Manifest },
    /// Scan everything and send the manifest.
    Scan,
    /// Ask the own store which paths changed.
    LookAtOwn,
    /// Read the own files at these paths.
    ReadPaths { paths: StringSet },
    /// Send this answer.
    Reply { message: crate::protocol::Message },
    /// Stage a file, then send this message and the file.
    Send { path: String, entry: Entry, first: crate::protocol::Message },
    /// Receive a file and install it, then send this message.
    Receive {
        path: String,
        entry: Entry,
        expected: Option<String>,
        behind: crate::protocol::Message,
    },
    /// The round is over.
    Finish { report: Report },
}

/// The phone's side of a round. It holds the token that the last round left:
/// a new round takes it away, and only the end of a round leaves another one.
pub struct Responder {
    share: Option<String>,
    token: Option<String>,
    asked: StringSet,
}

/// A [`Responder`] as a mathematical value.
#[verifier::ext_equal]
pub struct ResponderView {
    /// The Share of the round, once it is known.
    pub share: Option<Chars>,
    pub token: Option<Chars>,
    /// The paths that the phone is to answer for.
    pub asked: Set<Chars>,
}

impl View for Responder {
    type V = ResponderView;

    closed spec fn view(&self) -> ResponderView {
        ResponderView {
            share: owned_text(self.share),
            token: owned_text(self.token),
            asked: self.asked@,
        }
    }
}

/// A request for single paths can be answered: the token is the one of the
/// last round, and the paths are few and sound.
pub open spec fn delta_sound(token: Option<Chars>, base_token: Chars, paths: Set<Chars>) -> bool {
    token == Some(base_token) && paths.len() <= MAX_DELTA_PATHS && all_sound(paths)
}

/// The paths that the phone answers for: those asked for and its own changed
/// ones, if there are few enough.
pub open spec fn answered_paths(asked: Set<Chars>, dirty: Option<Set<Chars>>) -> Option<Set<Chars>> {
    match dirty {
        Some(own) => if own.len() <= MAX_DELTA_PATHS && asked.union(own).len()
            <= MAX_DELTA_PATHS {
            Some(asked.union(own))
        } else {
            None
        },
        None => None,
    }
}

/// The phone's side of a round after a message of its Share: whatever asks for
/// files takes the token away, and the end of the round leaves a new one.
pub open spec fn responder_after(
    v: ResponderView,
    share: Chars,
    m: crate::protocol::Message,
) -> ResponderView {
    let v = ResponderView { share: Some(share), ..v };
    match m {
        crate::protocol::Message::Scan => ResponderView { token: None, ..v },
        crate::protocol::Message::DeltaScan { base_token, paths } => ResponderView {
            token: None,
            asked: if delta_sound(v.token, base_token@, paths@) {
                paths@
            } else {
                v.asked
            },
            ..v
        },
        crate::protocol::Message::Done { transferred, conflicts, base_token } =>
            if crate::model::valid_hash(base_token@) {
                ResponderView { token: Some(base_token@), ..v }
            } else {
                v
            },
        _ => v,
    }
}

impl Responder {
    /// Waits for a round, of a given Share or of the one that comes first;
    /// `token` is the one that the last round left.
    pub fn new(share: Option<String>, token: Option<String>) -> (r: Self)
        ensures
            r@ == (ResponderView {
                share: owned_text(share),
                token: owned_text(token),
                asked: Set::empty(),
            }),
    {
        Responder { share, token, asked: StringSet::new() }
    }

    /// The token to be kept.
    pub fn token(&self) -> (r: Option<String>)
        ensures
            owned_text(r) == self@.token,
    {
        crate::config::copy_text(&self.token)
    }

    /// The round failed: no token is left, and the PC is told why.
    pub fn failed(&mut self, reason: String) -> (r: crate::protocol::Message)
        ensures
            final(self)@ == (ResponderView { token: None, ..old(self)@ }),
            r == (crate::protocol::Message::Error { message: reason }),
    {
        self.token = None;
        crate::protocol::Message::Error { message: reason }
    }

    /// Goes on once the own store has said which paths changed, if it can tell.
    pub fn looked(&mut self, dirty: Option<StringSet>) -> (r: Task)
        ensures
            match answered_paths(
                old(self)@.asked,
                match dirty {
                    Some(own) => Some(own@),
                    None => None,
                },
            ) {
                Some(all) => final(self)@ == (ResponderView { asked: all, ..old(self)@ }) && (
                r matches Task::ReadPaths { paths } && paths@ == all),
                None => final(self)@ == old(self)@ && r == (Task::Reply {
                    message: crate::protocol::Message::NeedFullScan,
                }),
            },
    {
        match delta_union(&self.asked, &dirty) {
            Some(all) => {
                self.asked = all.duplicate();
                Task::ReadPaths { paths: all }
            },
            None => Task::Reply { message: crate::protocol::Message::NeedFullScan },
        }
    }

    /// The answer about single paths, once their files were read, if they could
    /// be; the store counted from `before` to `after`.
    pub fn read(
        &self,
        files: Option<Manifest>,
        before: crate::protocol::StoreMetrics,
        after: crate::protocol::StoreMetrics,
    ) -> (r: crate::protocol::Message)
        ensures
            match files {
                Some(found) => r matches crate::protocol::Message::DeltaManifest {
                    paths,
                    files: told,
                    metrics,
                } && paths@ == self@.asked && told@ == found@ && metrics == (
                crate::protocol::StoreMetrics {
                    files_enumerated: since(after.files_enumerated, before.files_enumerated),
                    files_hashed: since(after.files_hashed, before.files_hashed),
                    bytes_hashed: since(after.bytes_hashed, before.bytes_hashed),
                    staging_copies: 0,
                    full_scans: 0,
                }),
                None => r == crate::protocol::Message::NeedFullScan,
            },
    {
        match files {
            Some(files) => {
                let counted = metrics_since(before, after);
                let metrics = crate::protocol::StoreMetrics { full_scans: 0, ..counted };
                crate::protocol::Message::DeltaManifest {
                    paths: self.asked.duplicate(),
                    files,
                    metrics,
                }
            },
            None => crate::protocol::Message::NeedFullScan,
        }
    }

    /// Takes the next message.
    pub fn take(&mut self, message: crate::protocol::Message) -> (r: Result<Task, SyncError>)
        ensures
            ({
                let share = old(self)@.share;
                let wrong = !(message is Scoped) || (share is Some && message->Scoped_share_id@
                    != share->0);
                &&& wrong ==> r is Err && final(self)@ == old(self)@
                &&& !wrong ==> final(self)@ == responder_after(
                    old(self)@,
                    message->Scoped_share_id@,
                    *message->Scoped_message,
                )
                &&& wrong ==> match r->Err_0 {
                    SyncError::Protocol(e) => message is Error && e
                        == crate::protocol::ProtocolError::Peer(message->Error_message),
                    SyncError::MissingContext => !(message is Scoped) && !(message is Error),
                    SyncError::WrongContext => message is Scoped,
                    _ => false,
                }
                &&& !wrong ==> task_for(*message->Scoped_message, old(self)@.token, r)
            }),
    {
        let (share_id, inner) = match crate::protocol::accept(message) {
            Err(e) => {
                return Err(SyncError::Protocol(e));
            },
            Ok(crate::protocol::Message::Scoped { share_id, message }) => (share_id, *message),
            Ok(_) => {
                return Err(SyncError::MissingContext);
            },
        };
        match &self.share {
            Some(expected) => {
                if !same(expected.as_str(), share_id.as_str()) {
                    return Err(SyncError::WrongContext);
                }
            },
            None => {},
        }
        self.share = Some(share_id);
        match inner {
            crate::protocol::Message::AckBatch { entries } => {
                let n: usize = entries.len();
                if n == 0 || n > MANIFEST_CHUNK_FILES {
                    return Err(SyncError::InvalidAckBatch);
                }
                match crate::model::validate_manifest(&entries) {
                    Ok(()) => Ok(Task::Acknowledge { entries }),
                    Err(e) => Err(SyncError::Manifest(e)),
                }
            },
            crate::protocol::Message::Scan => {
                self.token = None;
                Ok(Task::Scan)
            },
            crate::protocol::Message::DeltaScan { base_token, paths } => {
                let held = crate::config::copy_text(&self.token);
                self.token = None;
                if delta_request_sound(&held, base_token.as_str(), &paths) {
                    self.asked = paths;
                    Ok(Task::LookAtOwn)
                } else {
                    Ok(Task::Reply { message: crate::protocol::Message::NeedFullScan })
                }
            },
            crate::protocol::Message::Get { path, entry } => {
                match crate::model::validate_path(path.as_str()) {
                    Ok(()) => {
                        let first = crate::protocol::Message::Blob { entry: entry.duplicate() };
                        Ok(Task::Send { path, entry, first })
                    },
                    Err(e) => Err(SyncError::Path(e)),
                }
            },
            crate::protocol::Message::Put { path, entry, expected } => {
                match crate::model::validate_path(path.as_str()) {
                    Ok(()) => {},
                    Err(e) => {
                        return Err(SyncError::Path(e));
                    },
                }
                match crate::model::validate_hash(entry.hash.as_str()) {
                    Ok(()) => {
                        let behind = crate::protocol::Message::Accept;
                        Ok(Task::Receive { path, entry, expected, behind })
                    },
                    Err(e) => Err(SyncError::Hash(e)),
                }
            },
            crate::protocol::Message::Done { transferred, conflicts, base_token } => {
                match crate::model::validate_hash(base_token.as_str()) {
                    Ok(()) => {},
                    Err(e) => {
                        return Err(SyncError::Hash(e));
                    },
                }
                let report = Report {
                    transferred,
                    conflicts,
                    shares_processed: 1,
                    pending_wakes: Vec::new(),
                    round_deferred: false,
                    metrics: ShareMetrics::default(),
                };
                self.token = Some(base_token);
                Ok(Task::Finish { report })
            },
            _ => Err(SyncError::Unexpected),
        }
    }
}

/// What a message of the Share's round asks for, given the token that the phone
/// holds.
pub open spec fn task_for(
    m: crate::protocol::Message,
    token: Option<Chars>,
    r: Result<Task, SyncError>,
) -> bool {
    match m {
        crate::protocol::Message::AckBatch { entries } => {
            let n = entries@.dom().len();
            if n == 0 || n > MANIFEST_CHUNK_FILES {
                r matches Err(SyncError::InvalidAckBatch)
            } else if !crate::model::valid_manifest(entries@) {
                r matches Err(SyncError::Manifest(e)) && Some(e@) == crate::model::manifest_fault(
                    entries.order(),
                    entries@,
                )
            } else {
                r matches Ok(Task::Acknowledge { entries: e }) && e@ == entries@
            }
        },
        crate::protocol::Message::Scan => r matches Ok(Task::Scan),
        crate::protocol::Message::DeltaScan { base_token, paths } => if delta_sound(
            token,
            base_token@,
            paths@,
        ) {
            r matches Ok(Task::LookAtOwn)
        } else {
            r == Ok::<Task, SyncError>(
                Task::Reply { message: crate::protocol::Message::NeedFullScan },
            )
        },
        crate::protocol::Message::Get { path, entry } => if crate::model::path_fault(
            path@,
        ) is Some {
            r matches Err(SyncError::Path(e)) && e@ == ModelFault::Path(
                crate::model::path_fault(path@)->0,
            )
        } else {
            r matches Ok(Task::Send { path: p, entry: e, first }) && p@ == path@ && e@ == entry@
                && first is Blob && first->Blob_entry@ == entry@
        },
        crate::protocol::Message::Put { path, entry, expected } => if crate::model::path_fault(
            path@,
        ) is Some {
            r matches Err(SyncError::Path(e)) && e@ == ModelFault::Path(
                crate::model::path_fault(path@)->0,
            )
        } else if !crate::model::valid_hash(entry.hash@) {
            r matches Err(SyncError::Hash(e)) && e@ == ModelFault::Hash
        } else {
            r matches Ok(Task::Receive { path: p, entry: e, expected: x, behind }) && p@ == path@
                && e@ == entry@ && owned_text(x) == owned_text(expected) && behind
                == crate::protocol::Message::Accept
        },
        crate::protocol::Message::Done { transferred, conflicts, base_token } => if !crate::model::valid_hash(
            base_token@,
        ) {
            r matches Err(SyncError::Hash(e)) && e@ == ModelFault::Hash
        } else {
            r matches Ok(Task::Finish { report }) && report.transferred == transferred
                && report.conflicts == conflicts
                && report.shares_processed == 1 && report.pending_wakes@.len() == 0
                && !report.round_deferred && report.metrics == no_share_metrics()
        },
        _ => r matches Err(SyncError::Unexpected),
    }
}

fn delta_request_sound(token: &Option<String>, base_token: &str, paths: &StringSet) -> (r: bool)
    ensures
        r == delta_sound(owned_text(*token), base_token@, paths@),
{
    let held = match token {
        Some(t) => same(t.as_str(), base_token),
        None => false,
    };
    held && paths.len() <= MAX_DELTA_PATHS && are_sound(paths)
}

fn delta_union(paths: &StringSet, dirty: &Option<StringSet>) -> (r: Option<StringSet>)
    ensures
        match answered_paths(
            paths@,
            match dirty {
                Some(own) => Some(own@),
                None => None,
            },
        ) {
            Some(all) => r is Some && r->0@ == all,
            None => r is None,
        },
{
    match dirty {
        None => None,
        Some(d) => {
            if d.len() > MAX_DELTA_PATHS {
                return None;
            }
            let mut all = paths.duplicate();
            all.absorb(d);
            if all.len() > MAX_DELTA_PATHS {
                None
            } else {
                Some(all)
            }
        },
    }
}

/// The end of a round, which leaves a new token with the phone.
pub fn farewell(tally: Tally, token: &str) -> (r: crate::protocol::Message)
    ensures
        r matches crate::protocol::Message::Done { transferred, conflicts, base_token }
            && transferred == tally.transferred && conflicts == tally.conflicts && base_token@
            == token@,
{
    crate::protocol::Message::Done {
        transferred: tally.transferred,
        conflicts: tally.conflicts,
        base_token: token.to_owned(),
    }
}

/// The phone's word that a file is in its place.
pub fn confirmed(message: &crate::protocol::Message) -> (r: Result<(), SyncError>)
    ensures
        r is Ok <==> message is Accept,
        r is Err ==> r->Err_0 is Unconfirmed,
{
    match message {
        crate::protocol::Message::Accept => Ok(()),
        _ => Err(SyncError::Unconfirmed),
    }
}

/// The phone's word that the file that follows is the version that was asked
/// for.
pub fn announced(message: &crate::protocol::Message, entry: &Entry) -> (r: Result<(), SyncError>)
    ensures
        r is Ok <==> (message matches crate::protocol::Message::Blob { entry: actual } && actual@
            == entry@),
        r is Err ==> match r->Err_0 {
            SyncError::ExpectedBlob => !(message is Blob),
            SyncError::StaleSource => message is Blob && message->Blob_entry@ != entry@,
            _ => false,
        },
{
    match message {
        crate::protocol::Message::Blob { entry: actual } => {
            if actual.agrees(entry) {
                Ok(())
            } else {
                Err(SyncError::StaleSource)
            }
        },
        _ => Err(SyncError::ExpectedBlob),
    }
}

/// The phone answers for every path that it was asked for and for every change
/// of its own, and for no other path; where its own changes are not known, or
/// the paths are more than a thousand and twenty-four, it cannot.
pub proof fn law_phone_answers_for_all(asked: Set<Chars>, dirty: Option<Set<Chars>>, p: Chars)
    ensures
        dirty is None ==> answered_paths(asked, dirty) is None,
        dirty matches Some(own) ==> {
            let few = own.len() <= 1024 && asked.union(own).len() <= 1024;
            &&& answered_paths(asked, dirty) is Some <==> few
            &&& answered_paths(asked, dirty) matches Some(paths) ==> (paths.contains(p)
                <==> asked.contains(p) || own.contains(p))
        },
{
}

/// A new path is crowded where a file stands at a folder of it, where it would
/// stand at a folder of another, or where another differs from it in case
/// alone; a path that was agreed on never is.
pub proof fn law_crowded_paths(base: Set<Chars>, path: Chars, other: Chars, rest: Chars)
    ensures
        base.contains(path) ==> crowded(base, path) is None,
        !base.contains(path) && base.contains(other) && path == other + seq!['/'] + rest ==> crowded(
            base,
            path,
        ) == Some(true),
        !base.contains(path) && base.contains(other) && other == path + seq!['/'] + rest ==> crowded(
            base,
            path,
        ) == Some(true),
        !base.contains(path) && base.contains(other) && crate::primitives::lowercase(other)
            == crate::primitives::lowercase(path) ==> crowded(base, path) is Some,
        crowded(base, path) is Some ==> exists|k: Chars| #[trigger]
            base.contains(k) && (crate::primitives::lowercase(k) == crate::primitives::lowercase(
                path,
            ) || (exists|r: Chars| path == #[trigger] (k + seq!['/'] + r)) || (exists|r: Chars|
                k == #[trigger] (path + seq!['/'] + r))),
{
    if path == other + seq!['/'] + rest {
        assert(path.take(other.len() as int) =~= other);
        assert(path[other.len() as int] == '/');
        assert(crate::model::holds_below(other, path));
    }
    if other == path + seq!['/'] + rest {
        assert(other.take(path.len() as int) =~= path);
        assert(other[path.len() as int] == '/');
        assert(crate::model::holds_below(path, other));
    }
    if crowded(base, path) == Some(true) {
        let k = choose|k: Chars| #[trigger]
            base.contains(k) && (crate::model::holds_below(k, path) || crate::model::holds_below(
                path,
                k,
            ));
        if crate::model::holds_below(k, path) {
            let r = path.skip(k.len() as int + 1);
            assert(path =~= k + seq!['/'] + r);
        } else {
            let r = k.skip(path.len() as int + 1);
            assert(k =~= path + seq!['/'] + r);
        }
        assert(base.contains(k));
    } else if crowded(base, path) is Some {
        let k = choose|k: Chars| #[trigger]
            base.contains(k) && crate::primitives::lowercase(k) == crate::primitives::lowercase(
                path,
            );
        assert(base.contains(k));
    }
}

/// The phone does what it is asked for, and nothing that it should not: it
/// sends and takes just the version that the message names, only at a path that
/// is one of a Share, confirms what it took, and takes no end of a round that
/// leaves no token.
pub proof fn law_phone_does_what_it_is_asked(
    m: crate::protocol::Message,
    token: Option<Chars>,
    r: Result<Task, SyncError>,
)
    requires
        task_for(m, token, r),
    ensures
        r matches Ok(Task::Send { path, entry, first }) ==> m is Get && path@ == m->Get_path@
            && entry@ == m->Get_entry@ && crate::model::path_fault(path@) is None && first is Blob
            && first->Blob_entry@ == entry@,
        r matches Ok(Task::Receive { path, entry, expected, behind }) ==> m is Put && path@
            == m->Put_path@ && entry@ == m->Put_entry@ && owned_text(expected) == owned_text(
            m->Put_expected,
        ) && crate::model::path_fault(path@) is None && crate::model::valid_hash(entry@.hash)
            && behind == crate::protocol::Message::Accept,
        r matches Ok(Task::Acknowledge { entries }) ==> m is AckBatch && entries@
            == m->AckBatch_entries@ && 0 < entries@.dom().len() <= 1024
            && crate::model::valid_manifest(entries@),
        r matches Ok(Task::Finish { report }) ==> m is Done && crate::model::valid_hash(
            m->Done_base_token@,
        ) && report.transferred == m->Done_transferred && report.conflicts == m->Done_conflicts,
        r matches Ok(Task::LookAtOwn) ==> m is DeltaScan && token == Some(
            m->DeltaScan_base_token@,
        ) && m->DeltaScan_paths@.len() <= 1024,
        r matches Ok(Task::Scan) ==> m is Scan,
        m is Scan ==> r is Ok,
        m is Get && crate::model::path_fault(m->Get_path@) is None ==> r is Ok,
        m is Put && crate::model::path_fault(m->Put_path@) is None && crate::model::valid_hash(
            m->Put_entry.hash@,
        ) ==> r is Ok,
        m is Done && crate::model::valid_hash(m->Done_base_token@) ==> r is Ok,
        m is DeltaScan ==> r is Ok,
        m is DeltaScan && token == Some(m->DeltaScan_base_token@) && m->DeltaScan_paths@.len() <= 1024
            && (forall|p: Chars| #[trigger]
            m->DeltaScan_paths@.contains(p) ==> crate::model::path_fault(p) is None) ==> r
            matches Ok(Task::LookAtOwn),
        m is AckBatch && 0 < m->AckBatch_entries@.dom().len() <= 1024
            && crate::model::valid_manifest(m->AckBatch_entries@) ==> r is Ok,
{
}

/// Steps that agree on something, note it or clear it change the state at that
/// path alone, and only a request to keep the state is one.
pub proof fn law_steps_settle_their_path(s: StateView, path: Chars, other: Chars, h: Chars)
    requires
        other != path,
    ensures
        ({
            let known = settled_by(s, OpView::Base { path, hash: Some(h) });
            let gone = settled_by(s, OpView::Base { path, hash: None });
            let marked = settled_by(s, OpView::Mark { path });
            let cleared = settled_by(s, OpView::Clear { path });
            &&& known.files.dom().contains(path) && known.files[path] == h
            &&& !gone.files.dom().contains(path)
            &&& known.files.dom().contains(other) == s.files.dom().contains(other)
            &&& gone.files.dom().contains(other) == s.files.dom().contains(other)
            &&& s.files.dom().contains(other) ==> known.files[other] == s.files[other]
                && gone.files[other] == s.files[other]
            &&& marked.conflicts.contains(path) && !cleared.conflicts.contains(path)
            &&& marked.conflicts.contains(other) == s.conflicts.contains(other)
            &&& cleared.conflicts.contains(other) == s.conflicts.contains(other)
            &&& marked.files == s.files && cleared.files == s.files
            &&& known.conflicts == s.conflicts && gone.conflicts == s.conflicts
        }),
{
}

/// At first nothing is agreed on, nothing is in conflict, and nothing was ever
/// synchronised; what is agreed on is kept for one pairing and one Share.
pub proof fn law_nothing_is_agreed_at_first(pair_id: Chars, share_id: Chars, p: Chars)
    ensures
        ({
            let s = blank_state(pair_id, share_id);
            &&& !s.files.dom().contains(p) && !s.conflicts.contains(p)
            &&& s.last_sync is None && s.base_token is None && s.peer_root is None
            &&& s.pair_id == pair_id && s.share_id == share_id
        }),
{
}

} // verus!
