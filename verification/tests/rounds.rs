use rowd::collections::{Duplicate, StringMap, StringSet};
use rowd::config::{RemapPolicy, SyncMode};
use rowd::ignore::Ignore;
use rowd::model::{conflict_path, validate_path, Action, Entry, ModelError, MAX_FILE};
use rowd::opening::{HeldToken, Opening, OpeningEvent, OpeningStep};
use rowd::protocol::{
    accept, copy_exact, receive, receive_for, receive_manifest_with_metrics, send_for,
    send_manifest_with_metrics, Message, ProtocolError, StoreMetrics,
};
use rowd::storage::{
    hash_reader, CacheInvalidation, FileKind, Hint, InstallPlan, LocalStore, PathFact, StoreError,
    StoredCache, VerifiedStaged, Visit,
};
use rowd::sync::{
    check_namespace, decide, farewell, full_paths, metrics_since, round_metrics,
    without_excluded, Op, Responder, Round, ShareMetrics, Staged, State, SyncError, Tally, Task,
    Window, MAX_DELTA_PATHS, MAX_IN_FLIGHT_FILES, MAX_STAGED_BYTES,
};
use std::collections::{BTreeMap, VecDeque};

fn entry_of(bytes: &[u8]) -> Entry {
    let (hash, size) = hash_reader(bytes);
    Entry { hash, size }
}

/// A folder in memory with the store that looks after it.
struct Side {
    files: BTreeMap<String, (Vec<u8>, u64)>,
    clock: u64,
    store: LocalStore,
    disk: Option<StoredCache>,
    hint: Option<CacheInvalidation>,
    /// A later installation that fails, counted down.
    fail_install: usize,
    fail_snapshot: usize,
    edit: Option<(String, Vec<u8>)>,
}

impl Side {
    fn new() -> Self {
        Side {
            files: BTreeMap::new(),
            clock: 0,
            store: LocalStore::open(None, String::new(), None, Hint::Absent),
            disk: None,
            hint: None,
            fail_install: 0,
            fail_snapshot: 0,
            edit: None,
        }
    }

    fn with(files: &[(&str, &[u8])]) -> Self {
        let mut side = Side::new();
        for (path, bytes) in files {
            side.write(path, bytes);
        }
        side
    }

    fn write(&mut self, path: &str, bytes: &[u8]) {
        self.clock += 1;
        self.files.insert(path.to_string(), (bytes.to_vec(), self.clock));
    }

    fn read(&self, path: &str) -> Option<&[u8]> {
        self.files.get(path).map(|(bytes, _)| bytes.as_slice())
    }

    fn policy(&self) -> String {
        let bytes = self.read(".rowdignore").unwrap_or_default();
        String::from_utf8(bytes.to_vec()).unwrap()
    }

    fn fact(&self, path: &str) -> PathFact {
        match self.files.get(path) {
            Some((bytes, stamp)) => PathFact::File {
                before: vec![*stamp],
                after: vec![*stamp],
                entry: entry_of(bytes),
            },
            None if self.files.keys().any(|k| k.starts_with(&format!("{path}/"))) => {
                PathFact::Other
            }
            None => PathFact::Missing,
        }
    }

    fn scan(&mut self) -> Result<StringMap<Entry>, StoreError> {
        let policy = self.policy();
        let dirty = self.store.dirty();
        let settled = dirty.iter().all(|p| !matches!(self.fact(p), PathFact::Other));
        let mut scan = self.store.begin_scan(&policy, settled);
        if scan.incremental {
            for path in dirty {
                let fact = self.fact(&path);
                self.store.rescan(&mut scan, &path, &fact)?;
            }
        } else {
            let paths: Vec<String> = self.files.keys().cloned().collect();
            'files: for path in paths {
                for (at, _) in path.match_indices('/') {
                    let seen =
                        self.store.visit(&mut scan, &path[..at], FileKind::Directory, &vec![])?;
                    if seen == Visit::Skip {
                        continue 'files;
                    }
                }
                let stamp = vec![self.files[&path].1];
                if self.store.visit(&mut scan, &path, FileKind::File, &stamp)? == Visit::Read {
                    let entry = entry_of(&self.files[&path].0);
                    self.store.record(&mut scan, &path, &stamp, &stamp, &entry)?;
                }
            }
        }
        let done = self.store.finish_scan(scan)?;
        if done.persist {
            self.disk = Some(self.store.cache_to_store());
        }
        if done.remove_hint {
            self.hint = None;
        }
        Ok(done.files)
    }

    fn scan_paths(&mut self, paths: &StringSet) -> Option<StringMap<Entry>> {
        let policy = self.policy();
        let facts = paths.to_list().iter().map(|p| self.fact(p)).collect();
        self.store.scan_paths(&policy, paths, &facts).ok().flatten()
    }

    fn delta_paths(&self) -> Option<StringSet> {
        self.store.delta_paths(&self.policy())
    }

    fn snapshot(&mut self, path: &str, entry: &Entry) -> Result<Vec<u8>, String> {
        if self.fail_snapshot == 1 {
            return Err("injected snapshot failure".into());
        }
        self.fail_snapshot = self.fail_snapshot.saturating_sub(1);
        let bytes = self.read(path).ok_or("missing")?.to_vec();
        let (hash, size) = hash_reader(&bytes);
        self.store
            .snapshot(path, entry, "staged".into(), &hash, size)
            .map(|_| bytes)
            .map_err(|e| format!("{e:?}"))
    }

    fn install(
        &mut self,
        path: &str,
        expected: Option<&str>,
        entry: &Entry,
        bytes: &[u8],
    ) -> Result<(), String> {
        if self.fail_install == 1 {
            return Err("injected install failure".into());
        }
        self.fail_install = self.fail_install.saturating_sub(1);
        if let Some((path, bytes)) = self.edit.take() {
            self.write(&path, &bytes);
        }
        let (hash, size) = hash_reader(bytes);
        let staged = VerifiedStaged::from_digest("staged".into(), entry, &hash, size)
            .map_err(|e| format!("{e:?}"))?;
        self.store.count_copy();
        let current = self.read(path).map(entry_of);
        let plan = self
            .store
            .plan_install(path, expected, entry, &staged, size, current.as_ref())
            .map_err(|e| format!("{e:?}"))?;
        if plan == InstallPlan::AlreadyThere {
            return Ok(());
        }
        self.write(path, bytes);
        let stored = self
            .hint
            .take()
            .unwrap_or(CacheInvalidation { full: false, paths: StringSet::new() });
        self.hint = self.store.installed(path, stored);
        Ok(())
    }
}

/// A PC and a phone that keep one Share, with the line between them.
struct Pair {
    pc: Side,
    phone: Side,
    state: State,
    /// What the PC keeps of the last round while it runs.
    held: HeldToken,
    /// The message at which the line breaks.
    cut: Option<&'static str>,
    /// The answer to an installation is lost.
    lose_accept: bool,
    progress: Vec<(String, usize, usize)>,
    manifest_entries: usize,
}

struct Outcome {
    tally: Tally,
    metrics: ShareMetrics,
}

fn name(message: &Message) -> &'static str {
    match message {
        Message::DeltaScan { .. } => "delta_scan",
        Message::Done { .. } => "done",
        _ => "",
    }
}

impl Pair {
    fn new(pc: Side, phone: Side) -> Self {
        Pair {
            pc,
            phone,
            state: State::load(None, "pair", "share").unwrap(),
            held: HeldToken::new(),
            cut: None,
            lose_accept: false,
            progress: vec![],
            manifest_entries: 0,
        }
    }

    /// What the phone answers to a message, and the content that goes with it.
    fn phone(
        &mut self,
        responder: &mut Responder,
        message: Message,
        content: Option<&[u8]>,
    ) -> Result<(Vec<Message>, Vec<u8>), String> {
        let r = if self.cut.is_some_and(|cut| cut == name(&message)) {
            Err("broken pipe".to_string())
        } else {
            self.phone_task(responder, message, content)
        };
        if let Err(error) = &r {
            let told = responder.failed(error.clone());
            assert!(matches!(told, Message::Error { message } if message == *error));
        }
        self.phone.store.set_base_token(responder.token());
        r
    }

    fn phone_task(
        &mut self,
        responder: &mut Responder,
        message: Message,
        content: Option<&[u8]>,
    ) -> Result<(Vec<Message>, Vec<u8>), String> {
        let scoped = send_for("share", message);
        let before = self.phone.store.metrics();
        let mut task = responder.take(scoped).map_err(|e| format!("{e:?}"))?;
        if let Task::LookAtOwn = task {
            task = responder.looked(self.phone.delta_paths());
        }
        if let Task::ReadPaths { paths } = &task {
            let files = self.phone.scan_paths(paths);
            let message = responder.read(files, before, self.phone.store.metrics());
            task = Task::Reply { message };
        }
        match task {
            Task::Acknowledge { .. } => Ok((vec![], vec![])),
            Task::Scan => {
                self.phone.store.require_full_scan();
                let files = self.phone.scan().map_err(|e| format!("{e:?}"))?;
                let metrics = metrics_since(before, self.phone.store.metrics());
                let messages = send_manifest_with_metrics("share", &files, metrics)
                    .map_err(|e| format!("{e:?}"))?;
                Ok((messages, vec![]))
            }
            Task::Reply { message } => Ok((vec![send_for("share", message)], vec![])),
            Task::Send { path, entry, first } => {
                let bytes = self.phone.snapshot(&path, &entry)?;
                Ok((vec![send_for("share", first)], bytes))
            }
            Task::Receive { path, entry, expected, behind } => {
                let bytes = content.unwrap();
                self.phone.install(&path, expected.as_deref(), &entry, bytes)?;
                if self.lose_accept {
                    return Err("lost".into());
                }
                Ok((vec![send_for("share", behind)], vec![]))
            }
            Task::Finish { .. } => Ok((vec![], vec![])),
            Task::LookAtOwn | Task::ReadPaths { .. } => Err("not answered".into()),
        }
    }

    fn round(
        &mut self,
        mode: SyncMode,
        remap: Option<RemapPolicy>,
    ) -> Result<Outcome, String> {
        let mut responder = Responder::new(None, self.phone.store.base_token());
        let before = self.pc.store.metrics();
        let mut delta = None;
        let mut peer = StoreMetrics::default();
        let mut opening = Opening::begin(&mut self.state, &mut self.held, remap);
        loop {
            let event = match opening.step() {
                OpeningStep::LookAtOwn => OpeningEvent::Own(self.pc.delta_paths()),
                OpeningStep::Ask => {
                    let (mut answer, _) =
                        self.phone(&mut responder, opening.question(), None)?;
                    let answer =
                        receive_for(answer.remove(0), "share").map_err(|e| format!("{e:?}"))?;
                    if let Message::DeltaManifest { metrics, .. } = &answer {
                        peer = *metrics;
                    }
                    OpeningEvent::Answer(answer)
                }
                OpeningStep::ReadPaths => {
                    OpeningEvent::Files(self.pc.scan_paths(opening.paths()))
                }
                OpeningStep::Begin => {
                    let paths = opening.paths().duplicate();
                    let (pc, files) = opening.into_files();
                    delta = Some((pc, files, paths, peer));
                    break;
                }
                OpeningStep::ScanAll => break,
            };
            opening.take(&self.state, event);
        }
        let used_delta = delta.is_some();
        let (pc, android, paths, peer) = match delta {
            Some(found) => found,
            None => {
                self.pc.store.require_full_scan();
                let (messages, _) = self.phone(&mut responder, Message::Scan, None)?;
                let pc = self.pc.scan().map_err(|e| format!("{e:?}"))?;
                let (android, peer) = receive_manifest_with_metrics(messages, "share")
                    .map_err(|e| format!("{e:?}"))?;
                let paths = full_paths(&self.state, &pc, &android);
                (pc, android, paths, peer)
            }
        };
        let count = android.len();
        self.manifest_entries = count;
        let policy = Ignore::parse(&self.pc.policy());
        let android = without_excluded(&android, &policy);
        check_namespace(&self.state, &pc, &android, &paths, used_delta)
            .map_err(|e| format!("{e:?}"))?;
        if !used_delta {
            self.state.forget_gone(&pc, &android);
        }
        let scanned = self.pc.store.metrics();
        let reconciled = paths.len();
        let mut round = Round::new(pc, android, &paths, mode, remap);
        let mut line = Line::default();
        while let Some(ops) = round.next(&self.state, &policy) {
            self.perform(&mut responder, &mut line, ops)?;
        }
        let ops = round.finish();
        self.perform(&mut responder, &mut line, ops)?;
        self.state.complete(7);
        let tally = round.tally();
        let metrics = round_metrics(
            tally,
            peer,
            before,
            scanned,
            self.pc.store.metrics(),
            count,
            reconciled,
            0,
            used_delta,
        );
        let token = "e".repeat(64);
        self.phone(&mut responder, farewell(tally, &token), None)?;
        self.held.sent(token);
        Ok(Outcome { tally, metrics })
    }

    fn perform(
        &mut self,
        responder: &mut Responder,
        line: &mut Line,
        ops: Vec<Op>,
    ) -> Result<(), String> {
        for op in ops {
            match &op {
                Op::Progress { path, index, total } => {
                    self.progress.push((path.clone(), *index, *total));
                }
                Op::Snapshot { path, entry } => {
                    line.local = self.pc.snapshot(path, entry)?;
                }
                Op::Put { path, expected, entry, staged } => {
                    let bytes = match staged {
                        Staged::Local => line.local.clone(),
                        Staged::Remote => line.remote[0].clone(),
                    };
                    let put = Message::Put {
                        path: path.clone(),
                        entry: entry.duplicate(),
                        expected: expected.clone(),
                    };
                    let answer = self.phone(responder, put, Some(&bytes));
                    line.accepts.push_back(answer.map(|_| ()));
                }
                Op::Accept { .. } => line.accepts.pop_front().unwrap()?,
                Op::Get { path, entry } => {
                    let get = Message::Get { path: path.clone(), entry: entry.duplicate() };
                    let answer = self.phone(responder, get, None);
                    line.blobs.push_back(answer.map(|(_, bytes)| bytes));
                }
                Op::Receive { entry, .. } => {
                    let bytes = line.blobs.pop_front().unwrap()?;
                    assert!(entry_of(&bytes).agrees(entry));
                    line.remote.push_back(bytes);
                }
                Op::Install { path, expected, entry } => {
                    let bytes = line.remote[0].clone();
                    self.pc.install(path, expected.as_deref(), entry, &bytes)?;
                    if !path.starts_with("Rowd Conflicts/") {
                        line.remote.pop_front();
                    }
                }
                Op::SendAcks { entries } => {
                    let batch = Message::AckBatch { entries: entries.duplicate() };
                    self.phone(responder, batch, None)?;
                }
                Op::Mark { path } if path.starts_with("Rowd Conflicts/") => {
                    line.remote.pop_front();
                }
                _ => {}
            }
            self.state.settle(&op);
        }
        Ok(())
    }

    fn agree(&mut self) -> bool {
        let a = self.pc.scan().unwrap();
        let b = self.phone.scan().unwrap();
        a.len() == b.len()
            && (0..a.len())
                .all(|i| a.key_at(i) == b.key_at(i) && a.value_at(i).agrees(b.value_at(i)))
    }

    fn both_ways(&mut self) -> Result<Outcome, String> {
        self.round(SyncMode::Bidirectional, None)
    }
}

/// What is on its way.
#[derive(Default)]
struct Line {
    local: Vec<u8>,
    remote: VecDeque<Vec<u8>>,
    accepts: VecDeque<Result<(), String>>,
    blobs: VecDeque<Result<Vec<u8>, String>>,
}

#[test]
fn bidirectional_conflict_converges_and_replay_is_noop() {
    let mut pair = Pair::new(
        Side::with(&[("a.txt", b"pc")]),
        Side::with(&[("a.txt", b"phone"), ("only-phone", b"new")]),
    );
    for round in 0..3 {
        let report = pair.both_ways().unwrap();
        if round == 0 {
            assert_eq!(report.tally.conflicts, 1);
            assert!(report.tally.bytes_transferred >= 5);
            assert!(report.metrics.files_hashed > 0);
            assert_eq!(report.metrics.full_scans, 2);
        } else {
            assert_eq!(report.tally.transferred, 0);
            assert_eq!(report.tally.bytes_transferred, 0);
        }
        assert!(pair.agree());
    }
    pair.phone.files.remove("a.txt");
    pair.both_ways().unwrap();
    assert!(pair.agree());
}

#[test]
fn edit_after_manifest_is_preserved_then_becomes_a_conflict() {
    let mut pair =
        Pair::new(Side::with(&[("a", b"pc version")]), Side::with(&[("a", b"base")]));
    pair.state.files.insert("a".into(), hash_reader(b"base").0);
    pair.phone.edit = Some(("a".into(), b"edited during transfer".to_vec()));
    let error = pair.both_ways().err().unwrap();
    assert!(error.contains("StaleTarget"), "{error}");
    assert_eq!(pair.phone.read("a"), Some(b"edited during transfer".as_slice()));
    assert_eq!(pair.both_ways().unwrap().tally.conflicts, 1);
    assert!(pair.agree());
    assert_eq!(pair.pc.files.len(), 2);
}

#[test]
fn cross_peer_file_directory_collision_stops_before_transfer() {
    let mut pair = Pair::new(Side::with(&[("a", b"pc")]), Side::with(&[("a/b", b"android")]));
    let error = pair.both_ways().err().unwrap();
    assert!(error.contains("FileDirectory"), "{error}");
    assert_eq!(pair.pc.read("a"), Some(b"pc".as_slice()));
    assert_eq!(pair.phone.read("a/b"), Some(b"android".as_slice()));
}

#[test]
fn truncated_or_corrupt_transfer_leaves_destination_untouched() {
    for (sent, reason) in
        [(b"bad".as_slice(), "Truncated"), (b"invalid".as_slice(), "HashMismatch")]
    {
        let mut phone = Side::with(&[("a", b"original")]);
        let old = phone.scan().unwrap().get("a").unwrap().duplicate();
        let put = Message::Put {
            path: "a".into(),
            entry: entry_of(b"correct"),
            expected: Some(old.hash),
        };
        let (replies, end) = respond(&mut phone, None, vec![send_for("test", put)], sent);
        let error = end.unwrap_err();
        assert!(error.contains(reason), "{error}");
        assert_eq!(replies.len(), 1);
        let told = accept(replies.into_iter().next().unwrap());
        assert!(matches!(told, Err(ProtocolError::Peer(text)) if text == error));
        assert_eq!(phone.store.base_token(), None);
        assert_eq!(phone.read("a"), Some(b"original".as_slice()));
    }
    let mut phone = Side::with(&[("a", b"original")]);
    let old = phone.scan().unwrap().get("a").unwrap().duplicate();
    let put =
        Message::Put { path: "a".into(), entry: entry_of(b"correct"), expected: Some(old.hash) };
    let (replies, end) = respond(&mut phone, None, vec![send_for("test", put)], b"correct");
    assert_eq!(replies.len(), 2);
    assert!(end.is_err());
    assert!(matches!(receive_for(replies.into_iter().next().unwrap(), "test"), Ok(Message::Accept)));
    assert_eq!(phone.read("a"), Some(b"correct".as_slice()));
}

/// A phone that is sent some messages, with the content behind them, and then
/// nothing more: what it answers, and how the round ends.
fn respond(
    phone: &mut Side,
    share: Option<&str>,
    messages: Vec<Message>,
    content: &[u8],
) -> (Vec<Message>, Result<(), String>) {
    phone.store.set_base_token(Some("f".repeat(64)));
    let mut responder = Responder::new(share.map(str::to_string), phone.store.base_token());
    let mut replies = vec![];
    let end = answer_all(phone, &mut responder, messages, content, &mut replies);
    if let Err(error) = &end {
        replies.push(responder.failed(error.clone()));
    }
    phone.store.set_base_token(responder.token());
    (replies, end)
}

fn answer_all(
    phone: &mut Side,
    responder: &mut Responder,
    messages: Vec<Message>,
    content: &[u8],
    replies: &mut Vec<Message>,
) -> Result<(), String> {
    let mut rest = content;
    for message in messages {
        let about = match &message {
            Message::Scoped { share_id, .. } => share_id.clone(),
            _ => String::new(),
        };
        match responder.take(message).map_err(|e| format!("{e:?}"))? {
            Task::Receive { path, entry, expected, behind } => {
                let got = copy_exact(rest, entry.size).map_err(|e| format!("{e:?}"))?;
                rest = &rest[got.len()..];
                phone.install(&path, expected.as_deref(), &entry, &got)?;
                replies.push(send_for(&about, behind));
            }
            Task::Acknowledge { .. } => {}
            Task::Finish { .. } => return Ok(()),
            _ => return Err("not a part of this line".into()),
        }
    }
    receive(rest).map_err(|e| format!("{e:?}"))?;
    Err("one more message".into())
}

#[test]
fn partial_ack_batch_never_completes_a_round() {
    let mut entries = StringMap::new();
    entries.insert("a".to_string(), entry_of(b"content"));
    let mut phone = Side::with(&[("a", b"content")]);
    assert_eq!(phone.scan().unwrap().get("a").unwrap().hash, entry_of(b"content").hash);
    let batch = send_for("share", Message::AckBatch { entries });
    let (replies, end) = respond(&mut phone, Some("share"), vec![batch], b"");
    assert!(matches!(replies.as_slice(), [Message::Error { .. }]));
    assert_eq!(phone.store.base_token(), None);
    let error = end.unwrap_err();
    assert!(error.contains("Ended"), "{error}");
    let batch = send_for("share", Message::AckBatch { entries: StringMap::new() });
    let (replies, end) = respond(&mut phone, Some("share"), vec![batch], b"");
    assert!(matches!(replies.as_slice(), [Message::Error { .. }]));
    assert_eq!(phone.store.base_token(), None);
    let error = end.unwrap_err();
    assert!(error.contains("InvalidAckBatch"), "{error}");
    let mut responder = Responder::new(Some("share".into()), None);
    let task =
        responder.take(send_for("share", Message::AckBatch { entries: StringMap::new() }));
    assert!(matches!(task, Err(SyncError::InvalidAckBatch)));
}

#[test]
fn full_scan_finds_the_files_that_the_policy_lets_through() {
    let mut side = Side::with(&[
        (".rowdignore", b"build/\n*.tmp\n"),
        ("a", b"1"),
        ("b.tmp", b"2"),
        ("build/out", b"3"),
        ("docs/c", b"4"),
        ("docs/d.tmp", b"5"),
    ]);
    let expected = [("a", b"1"), ("docs/c", b"4")];
    for read in [2, 0] {
        let before = side.store.metrics();
        side.store.require_full_scan();
        let files = side.scan().unwrap();
        assert_eq!(files.len(), expected.len());
        for (path, bytes) in expected {
            assert_eq!(files.get(path).unwrap().hash, entry_of(bytes).hash, "{path}");
        }
        let counted = metrics_since(before, side.store.metrics());
        assert_eq!((counted.files_enumerated, counted.files_hashed), (2, read));
    }
}

#[test]
fn full_scan_stumbles_over_a_link_and_over_a_file_that_changes() {
    let mut side = Side::new();
    let mut scan = side.store.begin_scan("link-kept\n", false);
    let none = vec![];
    assert_eq!(
        side.store.visit(&mut scan, "link-kept", FileKind::Symlink, &none).unwrap(),
        Visit::Skip
    );
    let seen = side.store.visit(&mut scan, "link", FileKind::Symlink, &none);
    assert!(matches!(seen, Err(StoreError::Symlink(p)) if p == "link"));
    let seen = side.store.visit(&mut scan, "pipe", FileKind::Other, &none);
    assert!(matches!(seen, Err(StoreError::Unsupported(p)) if p == "pipe"));
    let seen = side.store.visit(&mut scan, "a//b", FileKind::File, &none);
    assert!(matches!(seen, Err(StoreError::Path(_))));
    assert_eq!(
        side.store.visit(&mut scan, "f", FileKind::File, &vec![1]).unwrap(),
        Visit::Read
    );
    let seen = side.store.record(&mut scan, "f", &vec![1], &vec![2], &entry_of(b"f"));
    assert!(matches!(seen, Err(StoreError::StaleSource(p)) if p == "f"));
}

fn trusting(files: &[(&str, &[u8])]) -> Pair {
    let mut pair = Pair::new(Side::with(files), Side::with(files));
    pair.pc.store.allow_incremental_scan();
    pair.phone.store.allow_incremental_scan();
    assert_eq!(pair.both_ways().unwrap().metrics.full_scans, 2);
    pair
}

#[test]
fn delta_falls_back_when_trust_is_lost() {
    for scenario in
        ["restart", "token", "peer_token", "cache", "ignore", "delete", "rename", "remap"]
    {
        let mut pair = trusting(&[("a", b"same")]);
        match scenario {
            "restart" => pair.held = HeldToken::new(),
            "token" => pair.held.sent("bad".into()),
            "peer_token" => pair.phone.store.set_base_token(None),
            "cache" => pair.pc.store.invalidate(),
            "ignore" => pair.pc.write(".rowdignore", b"ignored\n"),
            "delete" => {
                pair.pc.files.remove("a");
                pair.pc.store.invalidate_path("a");
            }
            "rename" => {
                let bytes = pair.pc.files.remove("a").unwrap();
                pair.pc.files.insert("new".into(), bytes);
                pair.pc.store.invalidate_path("a");
                pair.pc.store.invalidate_path("new");
            }
            _ => {}
        }
        let remap = if scenario == "remap" { Some(RemapPolicy::Compare) } else { None };
        let report = pair.round(SyncMode::Bidirectional, remap).unwrap();
        assert_eq!(report.metrics.full_scans, 2, "{scenario}");
    }
}

#[test]
fn created_paths_use_delta_in_both_directions() {
    for (pc_bytes, android_bytes, transfers, conflicts) in [
        (Some(b"pc".as_slice()), None, 1, 0),
        (None, Some(b"android".as_slice()), 1, 0),
        (Some(b"same".as_slice()), Some(b"same".as_slice()), 0, 0),
        (Some(b"pc".as_slice()), Some(b"android".as_slice()), 3, 1),
    ] {
        let mut pair = trusting(&[]);
        if let Some(bytes) = pc_bytes {
            pair.pc.write("new.txt", bytes);
            pair.pc.store.invalidate_path("new.txt");
        }
        if let Some(bytes) = android_bytes {
            pair.phone.write("new.txt", bytes);
            pair.phone.store.invalidate_path("new.txt");
        }
        let report = pair.both_ways().unwrap();
        assert_eq!(report.metrics.full_scans, 0);
        assert_eq!(report.metrics.paths_reconciled, 1);
        assert!(report.metrics.manifest_entries <= 1);
        assert!(report.metrics.files_enumerated <= 2);
        assert_eq!(report.tally.transferred, transfers);
        assert_eq!(report.tally.conflicts, conflicts);
        assert_eq!(pair.pc.read("new.txt"), pc_bytes.or(android_bytes));
        if conflicts == 0 {
            assert_eq!(pair.phone.read("new.txt"), pc_bytes.or(android_bytes));
        } else {
            assert_eq!(pair.phone.read("new.txt"), Some(b"pc".as_slice()));
            let conflict = conflict_path("new.txt", &hash_reader(b"android").0);
            assert_eq!(pair.pc.read(&conflict), Some(b"android".as_slice()));
            assert_eq!(pair.phone.read(&conflict), Some(b"android".as_slice()));
        }
    }
}

#[test]
fn created_case_collision_is_checked_against_the_base() {
    let mut pair = trusting(&[("A.txt", b"base")]);
    pair.pc.write("a.txt", b"new");
    pair.pc.store.invalidate_path("a.txt");
    let error = pair.both_ways().err().unwrap();
    assert!(error.contains("CaseCollision"), "{error}");
    assert_eq!(pair.phone.read("A.txt"), Some(b"base".as_slice()));
    assert!(pair.phone.read("a.txt").is_none());
}

#[test]
fn reloading_base_in_the_same_process_keeps_the_session_delta() {
    let mut pair = trusting(&[("a", b"same")]);
    assert!(pair.state.base_token.is_none());
    pair.pc.store.invalidate_path("a");
    assert_eq!(pair.both_ways().unwrap().metrics.full_scans, 0);
}

#[test]
fn incremental_create_does_not_cross_a_known_file_directory_boundary() {
    let mut pair = trusting(&[("a", b"base")]);
    pair.pc.files.remove("a");
    pair.pc.write("a/b.txt", b"new");
    pair.pc.store.invalidate_path("a/b.txt");
    let error = pair.both_ways().err().unwrap();
    assert!(error.contains("FileDirectory"), "{error}");
    assert_eq!(pair.phone.read("a"), Some(b"base".as_slice()));
}

#[test]
fn interrupted_base_token_exchange_forces_full_scan() {
    for cut in ["delta_scan", "done"] {
        let mut pair = trusting(&[("a", b"same")]);
        pair.cut = Some(cut);
        assert!(pair.both_ways().is_err());
        pair.cut = None;
        assert!(pair.state.base_token.is_none());
        assert_eq!(pair.both_ways().unwrap().metrics.full_scans, 2);
    }
}

#[test]
fn fifo_window_respects_file_and_byte_limits() {
    for to_phone in [true, false] {
        let mut source = Side::new();
        for index in 0..10 {
            source.write(&format!("file-{index:02}"), &[b'x'; 1024]);
        }
        let mut pair = if to_phone {
            Pair::new(source, Side::new())
        } else {
            Pair::new(Side::new(), source)
        };
        let report = pair.both_ways().unwrap();
        assert_eq!(report.tally.transferred, 10);
        assert_eq!(report.tally.peak_in_flight_files, MAX_IN_FLIGHT_FILES as u64);
        assert!(report.tally.peak_staged_bytes <= MAX_STAGED_BYTES);
        assert!(pair.agree());
    }
}

#[test]
fn oversized_file_is_serial() {
    let mut pc = Side::new();
    pc.write("large", &vec![b'x'; MAX_STAGED_BYTES as usize + 1]);
    let mut pair = Pair::new(pc, Side::new());
    let report = pair.both_ways().unwrap();
    assert_eq!(report.tally.transferred, 1);
    assert_eq!(report.tally.peak_in_flight_files, 0);
    assert!(pair.agree());
}

#[test]
fn fifo_window_applies_byte_backpressure() {
    let mut pc = Side::new();
    for index in 0..5 {
        pc.write(&format!("file-{index}"), &vec![b'x'; 3 * 1024 * 1024]);
    }
    let mut pair = Pair::new(pc, Side::new());
    let report = pair.both_ways().unwrap();
    assert_eq!(report.tally.transferred, 5);
    assert_eq!(report.tally.peak_in_flight_files, 2);
    assert_eq!(report.tally.peak_staged_bytes, 6 * 1024 * 1024);
}

#[test]
fn interrupted_fifo_batch_recovers_in_both_directions() {
    for to_phone in [true, false] {
        let source = Side::with(&[("a", b"a"), ("b", b"b"), ("c", b"c")]);
        let mut pair = if to_phone {
            Pair::new(source, Side::new())
        } else {
            Pair::new(Side::new(), source)
        };
        if to_phone {
            pair.phone.fail_install = 2;
        } else {
            pair.phone.fail_snapshot = 2;
        }
        assert!(pair.both_ways().is_err());
        pair.phone.fail_install = 0;
        pair.phone.fail_snapshot = 0;
        if to_phone {
            assert_eq!(pair.phone.read("a"), Some(b"a".as_slice()));
            assert!(pair.phone.read("b").is_none());
        } else {
            assert!(pair.pc.read("a").is_none());
        }
        let report = pair.both_ways().unwrap();
        assert!(report.tally.transferred > 0);
        assert!(pair.agree());
    }
}

#[test]
fn conflict_drains_fifo_window() {
    let files: [(&str, &[u8]); 3] = [("a", b"base"), ("b", b"base"), ("c", b"base")];
    let mut pair = Pair::new(Side::with(&files), Side::with(&files));
    pair.both_ways().unwrap();
    for name in ["a", "b", "c"] {
        pair.pc.write(name, b"pc");
    }
    pair.phone.write("b", b"phone");
    let report = pair.both_ways().unwrap();
    assert_eq!(report.tally.conflicts, 1);
    assert_eq!(report.tally.transferred, 5);
    assert_eq!(report.tally.peak_in_flight_files, 1);
    assert!(pair.agree());
}

#[test]
fn unchanged_paths_emit_only_completion_progress() {
    let mut pair =
        Pair::new(Side::with(&[("same", b"content")]), Side::with(&[("same", b"content")]));
    pair.state.files.insert("same".into(), hash_reader(b"content").0);
    pair.both_ways().unwrap();
    assert_eq!(pair.progress, vec![(String::new(), 1, 1)]);
}

#[test]
fn remap_policy_bootstraps_content_without_overriding_steady_state_mode() {
    for (policy, expected, conflicts) in [
        (RemapPolicy::Pc, b"pc".as_slice(), 0),
        (RemapPolicy::Android, b"android".as_slice(), 0),
        (RemapPolicy::Compare, b"pc".as_slice(), 1),
    ] {
        let mut pair =
            Pair::new(Side::with(&[("both", b"pc")]), Side::with(&[("both", b"android")]));
        let report = pair.round(SyncMode::ToPc, Some(policy)).unwrap();
        assert_eq!(report.tally.conflicts, conflicts);
        assert_eq!(pair.pc.read("both"), Some(expected));
        assert_eq!(pair.phone.read("both"), Some(expected));
        if policy == RemapPolicy::Compare {
            for side in [&pair.pc, &pair.phone] {
                assert!(side.files.keys().any(|p| p.starts_with("Rowd Conflicts/")));
            }
        }
    }
}

#[test]
fn directional_modes_preserve_prohibited_edits_and_resume() {
    for mode in [SyncMode::Bidirectional, SyncMode::ToPc, SyncMode::ToAndroid] {
        let mut pair =
            Pair::new(Side::with(&[("pc-only", b"pc")]), Side::with(&[("phone-only", b"phone")]));
        for step in 0..3 {
            if step == 1 {
                pair.pc.write("both", b"pc edit");
                pair.phone.write("both", b"phone edit");
            }
            pair.round(mode, None).unwrap();
        }
        if mode == SyncMode::Bidirectional {
            assert!(pair.agree());
        } else {
            assert_eq!(pair.pc.read("both"), Some(b"pc edit".as_slice()));
            assert_eq!(pair.phone.read("both"), Some(b"phone edit".as_slice()));
            assert!(pair.state.conflicts.contains("both"));
            if mode == SyncMode::ToPc {
                assert!(pair.phone.read("pc-only").is_none());
                assert!(pair.pc.read("phone-only").is_some());
            } else {
                assert!(pair.pc.read("phone-only").is_none());
                assert!(pair.phone.read("pc-only").is_some());
            }
        }
    }
}

#[test]
fn lost_ack_replays_from_physical_state_and_base() {
    let mut pair = Pair::new(Side::with(&[("a", b"latest")]), Side::new());
    pair.lose_accept = true;
    assert!(pair.both_ways().is_err());
    pair.lose_accept = false;
    assert_eq!(pair.state.files.len(), 0);
    assert_eq!(pair.both_ways().unwrap().tally.transferred, 0);
    assert_eq!(pair.state.files.get("a"), Some(&hash_reader(b"latest").0));
    assert!(pair.agree());
}

#[test]
fn conditional_write_hash_validation_and_retained_backup() {
    let mut side = Side::with(&[("a", b"old")]);
    let old = side.scan().unwrap().get("a").unwrap().duplicate();
    let entry = entry_of(b"new");
    assert!(side.install("a", None, &entry, b"new").is_err());
    assert_eq!(side.read("a"), Some(b"old".as_slice()));
    side.install("a", Some(&old.hash), &entry, b"new").unwrap();
    assert_eq!(side.read("a"), Some(b"new".as_slice()));
    let wrong = Entry { hash: "0".repeat(64), size: entry.size };
    assert!(side.install("a", Some(&entry.hash), &wrong, b"new").is_err());
    assert!(side.hint.as_ref().is_some_and(|h| h.paths.contains("a") && !h.full));
}

#[test]
fn full_invalidation_persists_an_empty_manifest() {
    let mut side = Side::with(&[("a", b"content")]);
    side.scan().unwrap();
    side.files.remove("a");
    side.store.invalidate();
    assert_eq!(side.scan().unwrap().len(), 0);
    let disk = side.disk.take().unwrap();
    assert_eq!(disk.files.len(), 0);
    side.store = LocalStore::open(None, String::new(), Some(disk), Hint::Absent);
    side.store.allow_incremental_scan();
    assert_eq!(side.scan().unwrap().len(), 0);

    side.write("a", b"again");
    side.store.invalidate();
    assert_eq!(side.scan().unwrap().len(), 1);
    side.files.remove("a");
    side.store.invalidate_path("a");
    assert_eq!(side.scan().unwrap().len(), 0);
    assert_eq!(side.disk.as_ref().unwrap().files.len(), 0);
}

#[test]
fn legacy_or_wrong_policy_cache_never_enables_incremental_scan() {
    let mut side = Side::with(&[("a", b"content")]);
    side.scan().unwrap();
    for policy in [None, Some("different policy".to_string())] {
        let disk = StoredCache { policy, files: side.disk.take().unwrap().files };
        side.store = LocalStore::open(None, String::new(), Some(disk), Hint::Absent);
        side.store.allow_incremental_scan();
        side.scan().unwrap();
        assert_eq!(side.store.metrics().full_scans, 1);
        assert_eq!(side.disk.as_ref().unwrap().policy.as_deref(), Some(""));
    }
}

#[test]
fn watcher_hint_is_small_durable_and_rechecked_on_scan() {
    let paths = |names: &[&str]| {
        let mut s = StringSet::new();
        for n in names {
            s.insert(n.to_string());
        }
        s
    };
    let none = || CacheInvalidation { full: false, paths: StringSet::new() };
    let mut side = Side::with(&[("a", b"old"), ("b", b"stable")]);
    let before = side.scan().unwrap();

    side.write("a", b"new");
    let hint = none().queue(false, &paths(&["a"])).unwrap();
    assert!(!hint.full);
    let disk = side.disk.take();
    side.store = LocalStore::open(None, String::new(), disk, Hint::Stored(hint));
    side.store.allow_incremental_scan();
    let after = side.scan().unwrap();
    assert!(!before.get("a").unwrap().agrees(after.get("a").unwrap()));
    assert!(before.get("b").unwrap().agrees(after.get("b").unwrap()));
    assert_eq!(side.store.metrics().files_enumerated, 1);
    assert_eq!(side.store.metrics().full_scans, 0);

    assert!(none().queue(false, &paths(&[])).is_none());

    side.files.remove("b");
    side.write("c", b"added");
    let hint = none().queue(false, &paths(&["b", "c"])).unwrap();
    let disk = side.disk.take();
    side.store = LocalStore::open(None, String::new(), disk, Hint::Stored(hint));
    side.store.allow_incremental_scan();
    let changed = side.scan().unwrap();
    assert!(!changed.contains("b"));
    assert!(changed.contains("c"));

    side.write("a", b"newer");
    let disk = side.disk.take();
    side.store = LocalStore::open(None, String::new(), disk, Hint::Unreadable);
    side.store.allow_incremental_scan();
    let newest = side.scan().unwrap();
    assert!(!after.get("a").unwrap().agrees(newest.get("a").unwrap()));
    assert_eq!(side.store.metrics().full_scans, 1);
}

#[test]
fn unchanged_scan_does_not_rewrite_hash_cache() {
    let mut side = Side::with(&[("a", b"old")]);
    side.scan().unwrap();
    side.disk = None;
    side.scan().unwrap();
    assert!(side.disk.is_none());
    side.write("a", b"changed");
    side.scan().unwrap();
    assert!(side.disk.take().is_some());
    side.files.remove("a");
    assert_eq!(side.scan().unwrap().len(), 0);
    assert!(side.disk.is_some());
}

#[test]
fn cache_detects_same_size_changes_and_full_scan_rebuilds() {
    let mut side = Side::with(&[("a", b"AAA")]);
    let old = side.scan().unwrap();
    side.write("a", b"BBB");
    let new = side.scan().unwrap();
    assert!(!old.get("a").unwrap().agrees(new.get("a").unwrap()));
    side.store.invalidate();
    assert!(side.scan().unwrap().get("a").unwrap().agrees(new.get("a").unwrap()));
    side.write(".rowdignore", b"a\n");
    assert_eq!(side.scan().unwrap().len(), 0);
}

#[test]
fn a_round_keeps_what_its_mode_keeps() {
    let mut pair = Pair::new(Side::with(&[("x", b"pc")]), Side::new());
    let report = pair.round(SyncMode::ToPc, None).unwrap();
    assert_eq!(report.tally.transferred, 0);
    assert_eq!(report.tally.conflicts, 1);
    assert!(pair.phone.read("x").is_none());
    assert!(pair.state.conflicts.contains("x"));
    pair.round(SyncMode::Bidirectional, None).unwrap();
    assert_eq!(pair.phone.read("x"), Some(b"pc".as_slice()));
    assert!(!pair.state.conflicts.contains("x"));
}

#[test]
fn decisions_follow_the_policy_where_nothing_was_agreed() {
    let a = entry_of(b"a");
    let b = entry_of(b"b");
    let d = |base: Option<&str>, policy| decide(base, Some(&a), Some(&b), policy);
    assert_eq!(d(None, None), Action::Conflict);
    assert_eq!(d(None, Some(RemapPolicy::Pc)), Action::ToAndroid);
    assert_eq!(d(None, Some(RemapPolicy::Android)), Action::ToPc);
    assert_eq!(d(None, Some(RemapPolicy::Compare)), Action::Conflict);
    assert_eq!(d(Some(&a.hash), Some(RemapPolicy::Pc)), Action::ToPc);
    assert_eq!(d(Some(&b.hash), Some(RemapPolicy::Android)), Action::ToAndroid);
}

#[test]
fn a_window_counts_what_it_moves() {
    let mut window = Window::new();
    let big = Entry { hash: "a".repeat(64), size: MAX_FILE };
    let ops = window.step(
        "big",
        0,
        1,
        None,
        Some(&big),
        None,
        SyncMode::Bidirectional,
        None,
    );
    assert!(matches!(ops[0], Op::Progress { .. }));
    assert!(ops.iter().any(|op| matches!(op, Op::Accept { .. })));
    let tally = window.tally();
    assert_eq!(tally.transferred, 1);
    assert_eq!(tally.bytes_transferred, MAX_FILE);
    assert_eq!(tally.control_messages, 2);
    assert_eq!(tally.peak_in_flight_files, 0);
}

#[test]
fn a_responder_keeps_to_one_share() {
    let mut responder = Responder::new(None, None);
    assert!(matches!(responder.take(send_for("one", Message::Scan)), Ok(Task::Scan)));
    assert!(matches!(
        responder.take(send_for("two", Message::Scan)),
        Err(SyncError::WrongContext)
    ));
    assert!(matches!(responder.take(Message::Scan), Err(SyncError::MissingContext)));
    assert!(matches!(
        responder.take(Message::Error { message: "stop".into() }),
        Err(SyncError::Protocol(_))
    ));
    let get = Message::Get { path: "../a".into(), entry: entry_of(b"x") };
    assert!(matches!(
        responder.take(send_for("one", get)),
        Err(SyncError::Path(ModelError::Path(_)))
    ));
    let put = Message::Put {
        path: "a".into(),
        entry: Entry { hash: "short".into(), size: 1 },
        expected: None,
    };
    assert!(matches!(responder.take(send_for("one", put)), Err(SyncError::Hash(_))));
    assert!(matches!(
        responder.take(send_for("one", Message::Accept)),
        Err(SyncError::Unexpected)
    ));
    let done = Message::Done { transferred: 3, conflicts: 1, base_token: "a".repeat(64) };
    let Ok(Task::Finish { report }) = responder.take(send_for("one", done)) else {
        panic!("a round did not end");
    };
    assert_eq!((report.transferred, report.conflicts, report.shares_processed), (3, 1, 1));
    assert_eq!(responder.token(), Some("a".repeat(64)));
}

#[test]
fn a_token_is_taken_away_until_a_round_ends() {
    let token = "b".repeat(64);
    let set = |n: usize| {
        let mut set = StringSet::new();
        for i in 0..n {
            set.insert(format!("p{i}"));
        }
        set
    };
    let delta = |token: &str, paths: StringSet| {
        send_for("one", Message::DeltaScan { base_token: token.into(), paths })
    };
    let holding = || Responder::new(Some("one".into()), Some(token.clone()));
    let refused = |task: Result<Task, SyncError>| {
        matches!(task, Ok(Task::Reply { message: Message::NeedFullScan }))
    };

    let mut responder = holding();
    assert!(matches!(responder.take(send_for("one", Message::Scan)), Ok(Task::Scan)));
    assert_eq!(responder.token(), None);
    assert!(refused(responder.take(delta(&token, set(1)))));

    let mut responder = holding();
    assert!(refused(responder.take(delta("other", set(1)))));
    assert_eq!(responder.token(), None);
    assert!(refused(holding().take(delta(&token, set(MAX_DELTA_PATHS + 1)))));

    let mut responder = holding();
    assert!(matches!(responder.take(delta(&token, set(2))), Ok(Task::LookAtOwn)));
    assert_eq!(responder.token(), None);
    assert!(refused(Ok(responder.looked(None))));
    assert!(refused(Ok(responder.looked(Some(set(MAX_DELTA_PATHS + 1))))));
    let mut own = StringSet::new();
    own.insert("own".to_string());
    let Task::ReadPaths { paths } = responder.looked(Some(own)) else {
        panic!("the paths are not read");
    };
    assert_eq!(paths.to_list(), vec!["own", "p0", "p1"]);
    let m = |n: u64| StoreMetrics {
        files_enumerated: n,
        files_hashed: n,
        bytes_hashed: n,
        staging_copies: n,
        full_scans: n,
    };
    let Message::DeltaManifest { paths, files, metrics } =
        responder.read(Some(StringMap::new()), m(2), m(5))
    else {
        panic!("no answer");
    };
    assert_eq!((paths.len(), files.len()), (3, 0));
    assert_eq!((metrics.files_hashed, metrics.full_scans, metrics.staging_copies), (3, 0, 0));
    assert!(matches!(responder.read(None, m(2), m(5)), Message::NeedFullScan));

    let Message::Error { message } = responder.failed("cut".into()) else {
        panic!("the PC is not told");
    };
    assert_eq!(message, "cut");
    let tally = Window::new().tally();
    let done = farewell(tally, &token);
    assert!(responder.take(send_for("one", done)).is_ok());
    assert_eq!(responder.token(), Some(token.clone()));
    responder.failed("late".into());
    assert_eq!(responder.token(), None);
}

#[test]
fn counters_do_not_go_below_zero() {
    let m = |n: u64| StoreMetrics {
        files_enumerated: n,
        files_hashed: n,
        bytes_hashed: n,
        staging_copies: n,
        full_scans: n,
    };
    assert_eq!(metrics_since(m(5), m(3)).files_hashed, 0);
    assert_eq!(metrics_since(m(3), m(5)).files_hashed, 2);
    assert!(validate_path("a").is_ok());
}

#[test]
fn a_deleted_file_comes_back() {
    let mut pair = Pair::new(Side::with(&[("a", b"kept"), ("b", b"also")]), Side::new());
    pair.both_ways().unwrap();
    pair.pc.files.remove("a");
    pair.phone.files.remove("b");
    pair.both_ways().unwrap();
    for side in [&pair.pc, &pair.phone] {
        assert_eq!(side.read("a"), Some(b"kept".as_slice()));
        assert_eq!(side.read("b"), Some(b"also".as_slice()));
    }
}

#[test]
fn an_ignored_file_stays_where_it_is() {
    let mut pair = Pair::new(
        Side::with(&[(".rowdignore", b"*.tmp\n"), ("a.tmp", b"pc"), ("b", b"shared")]),
        Side::with(&[("a.tmp", b"phone"), ("c.tmp", b"phone")]),
    );
    pair.both_ways().unwrap();
    assert_eq!(pair.pc.read("a.tmp"), Some(b"pc".as_slice()));
    assert_eq!(pair.phone.read("a.tmp"), Some(b"phone".as_slice()));
    assert!(pair.pc.read("c.tmp").is_none());
    assert!(pair.phone.read(".rowdignore").is_none());
    assert_eq!(pair.phone.read("b"), Some(b"shared".as_slice()));
}

#[test]
fn a_conflicting_version_may_be_there_already() {
    let aside = conflict_path("a.txt", &entry_of(b"phone").hash);
    let mut pair = Pair::new(
        Side::with(&[("a.txt", b"pc"), (&aside, b"phone")]),
        Side::with(&[("a.txt", b"phone")]),
    );
    pair.both_ways().unwrap();
    assert!(pair.agree());
    assert_eq!(pair.phone.read("a.txt"), Some(b"pc".as_slice()));
    assert_eq!(pair.phone.read(&aside), Some(b"phone".as_slice()));
    assert_eq!(pair.state.files.get(&aside), Some(&entry_of(b"phone").hash));
    assert_eq!(pair.both_ways().unwrap().tally.transferred, 0);

    let mut other = Pair::new(
        Side::with(&[("a.txt", b"pc"), (&aside, b"something else")]),
        Side::with(&[("a.txt", b"phone")]),
    );
    assert!(other.both_ways().is_err());
    assert_eq!(other.pc.read(&aside), Some(b"something else".as_slice()));
    assert_eq!(other.phone.read("a.txt"), Some(b"phone".as_slice()));
}

#[test]
fn a_round_that_is_unsure_scans_everything() {
    let mut state = State::load(None, &"a".repeat(64), &"b".repeat(64)).unwrap();
    let set = |paths: &[&str]| {
        let mut set = StringSet::new();
        for path in paths {
            set.insert(path.to_string());
        }
        set
    };
    let held = || {
        let mut held = HeldToken::new();
        held.sent("t".into());
        held
    };
    let start = |state: &mut State| Opening::begin(state, &mut held(), None);
    state.base_token = Some("left over".into());
    assert_eq!(start(&mut state).step(), OpeningStep::ScanAll);
    assert!(state.base_token.is_none());
    state.last_sync = Some(1);
    state.files.insert("a".into(), "d".repeat(64));
    assert_eq!(Opening::begin(&mut state, &mut HeldToken::new(), None).step(), OpeningStep::ScanAll);
    let mut left = held();
    let remapped = Opening::begin(&mut state, &mut left, Some(RemapPolicy::Pc));
    assert_eq!(remapped.step(), OpeningStep::ScanAll);
    assert_eq!(Opening::begin(&mut state, &mut left, None).step(), OpeningStep::ScanAll);

    let mut opening = start(&mut state);
    assert_eq!(opening.step(), OpeningStep::LookAtOwn);
    opening.take(&state, OpeningEvent::Files(None));
    assert_eq!(opening.step(), OpeningStep::LookAtOwn);
    opening.take(&state, OpeningEvent::Own(None));
    assert_eq!(opening.step(), OpeningStep::ScanAll);

    let mut opening = start(&mut state);
    opening.take(&state, OpeningEvent::Own(Some(set(&["a"]))));
    assert_eq!(opening.step(), OpeningStep::Ask);
    assert!(matches!(
        opening.question(),
        Message::DeltaScan { base_token, paths } if base_token == "t" && paths.contains("a")
    ));
    let mut files = StringMap::new();
    files.insert("a".to_string(), entry_of(b"x"));
    opening.take(
        &state,
        OpeningEvent::Answer(Message::DeltaManifest {
            paths: set(&["a"]),
            files,
            metrics: StoreMetrics::default(),
        }),
    );
    assert_eq!(opening.step(), OpeningStep::ReadPaths);
    opening.take(&state, OpeningEvent::Files(Some(StringMap::new())));
    assert_eq!(opening.step(), OpeningStep::ScanAll);
}
