use rowd::app::{blank, Identity};
use rowd::collections::{StringMap, StringSet};
use rowd::config::{RemapPolicy, ShareDefinition, ShareRequest, SyncMode};
use rowd::device::{fresh_share, DeviceConfig};
use rowd::ignore::Ignore;
use rowd::managed::{
    client_round, client_round_on, validate_shares, ClientRound, ClientState, LocalDevice,
    ManagedClient, ManagedError, Turn, MAX_SHARES,
};
use rowd::protocol::{
    client_auth, client_hello, client_ready, frame_length, receive, receive_after_first, send,
    server_auth, server_hello, server_proof, Greeting, Message, ProtocolError, MAX_FRAME,
    PROTOCOL_VERSION,
};
use rowd::session::{
    advertise, capabilities, clear_remaps, paused_reply, ready_shares, settle_requests, started,
    waiting_names, welcome, Capable, Offer, ServerRound, SessionError,
};
use rowd::sync::{Report, ShareMetrics};
use rowd::unlink::{Unlink, UnlinkEvent, UnlinkStep};
use rowd::watch::{calls, elapsed, Look, Notice, Watch, DEBOUNCE_MS, FALLBACK_MS, FULL_MS};

fn id(c: char) -> String {
    c.to_string().repeat(64)
}

fn config(ids: &[char]) -> DeviceConfig {
    let identity = Identity {
        pair_id: id('1'),
        cert: "aa".into(),
        key: "bb".into(),
        secret: id('2'),
    };
    let mut config = blank("pc:1".into(), "0:1".into(), identity);
    for c in ids {
        let mut share = fresh_share(id(*c), format!("Share {c}"), SyncMode::Bidirectional);
        share.root = format!("/{c}");
        config.shares.push(share);
    }
    config
}

fn report(transferred: usize) -> Report {
    Report {
        transferred,
        conflicts: 0,
        shares_processed: 1,
        pending_wakes: vec![],
        round_deferred: false,
        metrics: ShareMetrics::default(),
    }
}

fn state(available: Vec<String>, focus: Option<Vec<String>>) -> ClientState {
    ClientState {
        focus_shares: focus,
        available_shares: available,
        share_requests: vec![],
        cancel_intents: vec![],
        unlink_requested: false,
    }
}

/// Plays a session up to the point where the PC serves its Shares.
fn opened(
    config: &mut DeviceConfig,
    round: &mut ClientRound,
    device: &str,
    answer: ClientState,
) -> Offer {
    let Turn::Send(start) = round.start() else {
        panic!("the PC is not told to start");
    };
    assert!(matches!(start, Message::StartRound));
    started(&start).unwrap();
    let rules = config.shares.iter().map(|_| Some(String::new())).collect();
    let shares = advertise(config, &rules);
    let Ok(Turn::Configure(_)) = round.received(Message::Shares { shares }) else {
        panic!("the Shares were refused");
    };
    assert!(matches!(round.configured(3), Turn::Ask));
    let Ok(Turn::Send(message)) = round.asked(answer) else {
        panic!("the answer was refused");
    };
    let Ok(Capable::Proceed(offer)) = capabilities(message, device, config) else {
        panic!("the offer was refused");
    };
    let settled =
        settle_requests(config, &offer.share_requests, &offer.cancel_intents).unwrap();
    let status = Message::ShareRequestStatus {
        accepted: settled.accepted,
        rejected: settled.rejected,
        cancelled: settled.cancelled,
    };
    assert!(matches!(round.received(status), Ok(Turn::Acknowledge { .. })));
    assert!(matches!(round.acknowledged(), Turn::Receive));
    offer
}

#[test]
fn a_session_serves_every_share_once() {
    let mut config = config(&['a', 'b']);
    let device = id('d');
    let mut round = client_round_on(&device);
    let offer = opened(&mut config, &mut round, &device, state(vec![id('a'), id('b')], None));
    assert!(offer.audit);
    let ready = ready_shares(&config, &offer, &None);
    assert_eq!(ready.len(), 2);
    let mut server = ServerRound::new(ready, offer.audit, false);
    let mut urgent = StringMap::new();
    let mut served = vec![];
    while let Some(share) = server.next(&mut urgent) {
        let select = Message::SelectShare { share_id: share.share_id.clone() };
        assert!(matches!(round.received(select), Ok(Turn::Select(_))));
        assert_eq!(round.failed(), Some(share.share_id.clone()));
        assert!(matches!(round.selected(), Turn::Respond(Message::Ready, _)));
        let report = report(2);
        server.served(&share, &report, 5);
        assert!(matches!(round.responded(&report), Turn::Receive));
        served.push(share.share_id);
    }
    assert_eq!(served, vec![id('a'), id('b')]);
    let (metrics, remaps, message, preempted) = server.finish(40);
    assert_eq!((metrics.shares_processed, metrics.shares_changed), (2, 2));
    assert_eq!(metrics.total_ms, 40);
    assert!(remaps.is_empty());
    assert!(!preempted);
    let Ok(Turn::Finish(total)) = round.received(message) else {
        panic!("the session did not end");
    };
    assert_eq!((total.transferred, total.shares_processed), (4, 2));
}

#[test]
fn one_share_failure_does_not_starve_another_share() {
    let device = id('d');
    let mut attempts = client_round(&device);
    let mut config = config(&['a', 'b']);
    let mut round = attempts.session();
    opened(&mut config, &mut round, &device, state(vec![id('a'), id('b')], None));
    round.received(Message::SelectShare { share_id: id('a') }).unwrap();
    assert!(attempts.broke(round.failed(), "line cut"));
    let mut round = attempts.session();
    let offer = opened(&mut config, &mut round, &device, state(vec![id('a'), id('b')], None));
    assert_eq!(offer.requested, vec![id('b')]);
    round.received(Message::SelectShare { share_id: id('b') }).unwrap();
    round.selected();
    round.responded(&report(1));
    assert!(round.received(Message::SessionDone).is_ok());
    let Err(ManagedError::SharesFailed(text)) = attempts.ended() else {
        panic!("a failure was forgotten");
    };
    assert_eq!(text, format!("1 Share(s) failed: {}: line cut", id('a')));
    assert!(!attempts.broke(Some(id('a')), "again"));
    assert!(!attempts.broke(None, "no Share"));
}

#[test]
fn a_round_of_all_shares_gives_way_once() {
    let config = config(&['a', 'b']);
    let all = || config.shares.iter().map(|s| fresh_share(s.share_id.clone(), s.name.clone(), s.mode)).collect();
    let mut urgent = StringMap::new();
    urgent.insert(id('b'), false);
    let mut server = ServerRound::new(all(), true, false);
    assert!(server.next(&mut urgent).is_none());
    assert_eq!(urgent.get(&id('b')), Some(&true));
    let (_, _, message, preempted) = server.finish(1);
    assert!(preempted);
    let Message::RoundDeferred { shares } = message else {
        panic!("the phone was not told");
    };
    assert_eq!(shares, vec![id('b')]);
    let mut server = ServerRound::new(all(), true, preempted);
    assert!(server.next(&mut urgent).is_some());
    assert!(server.next(&mut urgent).is_some());
    assert!(server.next(&mut urgent).is_none());
    let (_, _, message, preempted) = server.finish(1);
    assert!(matches!(message, Message::SessionDone));
    assert!(!preempted);
    let mut focused = ServerRound::new(all(), false, false);
    assert!(focused.next(&mut urgent).is_some());
}

#[test]
fn a_focused_round_asks_for_its_share_alone() {
    let mut config = config(&['a', 'b']);
    let device = id('d');
    let mut round = client_round_on(&device);
    let answer = state(vec![id('a'), id('b')], Some(vec![id('b')]));
    let offer = opened(&mut config, &mut round, &device, answer);
    assert!(!offer.audit);
    assert_eq!(offer.requested, vec![id('b')]);
    let ready = ready_shares(&config, &offer, &None);
    assert_eq!(ready.len(), 1);
    assert_eq!(ready[0].share_id, id('b'));
    assert!(ready_shares(&config, &offer, &Some(id('a'))).is_empty());
    let mut none = StringSet::new();
    none.insert(id('a'));
    assert_eq!(waiting_names(&config, &none), vec!["Share b"]);
}

#[test]
fn a_session_is_refused_where_it_leaves_its_order() {
    let fresh = || {
        let mut round = client_round_on("root");
        round.start();
        round
    };
    assert!(matches!(
        fresh().received(Message::SessionDone),
        Err(ManagedError::ExpectedConfiguration)
    ));
    let mut round = fresh();
    assert!(matches!(
        round.received(Message::WakeShare { share_id: id('a') }),
        Ok(Turn::Receive)
    ));
    let mut config = config(&['a']);
    let device = id('d');
    let mut round = client_round_on(&device);
    opened(&mut config, &mut round, &device, state(vec![id('a')], None));
    assert!(matches!(
        round.received(Message::SelectShare { share_id: id('b') }),
        Err(ManagedError::UnexpectedSelection)
    ));
    let skip = Message::ShareSkipped { share_id: id('b'), reason: "x".into() };
    assert!(matches!(round.received(skip), Err(ManagedError::UnexpectedSkip)));
    assert!(matches!(
        round.received(Message::Accept),
        Err(ManagedError::UnexpectedMessage)
    ));
    let skip = Message::ShareSkipped { share_id: id('a'), reason: "gone".into() };
    assert!(matches!(round.received(skip), Ok(Turn::Receive)));
    assert!(matches!(
        round.received(Message::SessionDone),
        Err(ManagedError::SharesFailed(_))
    ));
}

#[test]
fn the_end_of_a_pairing_is_confirmed_by_both() {
    let mut config = config(&[]);
    config.pending_unlink = true;
    let device = id('d');
    let mut round = client_round_on(&device);
    assert!(matches!(round.start(), Turn::Send(Message::StartRound)));
    round.received(Message::Shares { shares: advertise(&config, &vec![]) }).unwrap();
    round.configured(0);
    let Ok(Turn::Send(message)) = round.asked(state(vec![], None)) else {
        panic!("no answer");
    };
    assert!(matches!(capabilities(message, &device, &config), Ok(Capable::Unlink)));
    let mut unlink = Unlink::begin();
    assert_eq!(unlink.step(), UnlinkStep::Tell);
    assert!(matches!(round.received(unlink.message().unwrap()), Ok(Turn::PrepareUnlink)));
    unlink.take(UnlinkEvent::Sent).unwrap();
    unlink.take(UnlinkEvent::Revoked).unwrap();
    assert_eq!(unlink.step(), UnlinkStep::Await);
    assert!(unlink.message().is_none());
    let Turn::Send(word) = round.unlink_prepared() else {
        panic!("the phone did not confirm");
    };
    unlink.take(UnlinkEvent::Answer(word)).unwrap();
    assert_eq!(unlink.step(), UnlinkStep::Revoke);
    unlink.take(UnlinkEvent::Revoked).unwrap();
    assert!(matches!(round.received(unlink.message().unwrap()), Ok(Turn::FinishUnlink)));
    unlink.take(UnlinkEvent::Sent).unwrap();
    assert_eq!(unlink.step(), UnlinkStep::Done);
    assert!(matches!(round.unlink_finished(), Turn::Finish(_)));
}

#[test]
fn an_unlink_without_the_phones_word_keeps_the_pairing() {
    let mut unlink = Unlink::begin();
    unlink.take(UnlinkEvent::Sent).unwrap();
    assert_eq!(
        unlink.take(UnlinkEvent::Answer(Message::Ready)),
        Err(SessionError::UnlinkUnacknowledged)
    );
    assert_eq!(unlink.step(), UnlinkStep::Abandoned);
    unlink.take(UnlinkEvent::Answer(Message::UnlinkAck)).unwrap();
    unlink.take(UnlinkEvent::Revoked).unwrap();
    assert_eq!(unlink.step(), UnlinkStep::Abandoned);
    assert!(unlink.message().is_none());
}

#[test]
fn shares_are_checked_before_they_are_taken_over() {
    let share = |id: String| ShareDefinition {
        share_id: id,
        name: "x".into(),
        mode: SyncMode::ToPc,
        enabled: true,
        binding_revision: 0,
        ignore_rules: String::new(),
        request_id: None,
        remap_policy: None,
    };
    assert!(validate_shares(&vec![share(id('a')), share(id('b'))]).is_ok());
    assert!(matches!(
        validate_shares(&vec![share(id('a')), share(id('a'))]),
        Err(ManagedError::DuplicateIdentity)
    ));
    assert!(matches!(
        validate_shares(&vec![share("a".into())]),
        Err(ManagedError::InvalidIdentity)
    ));
    let many = (0..=MAX_SHARES).map(|n| share(format!("{n:064x}"))).collect();
    assert!(matches!(validate_shares(&many), Err(ManagedError::TooManyShares)));
    let mut device = LocalDevice::open(vec![], StringMap::new(), vec![]);
    assert!(matches!(device.select(&id('a')), Err(ManagedError::UnknownShare)));
    device.configure(&vec![share(id('a'))]).unwrap();
    assert!(matches!(device.select(&id('a')), Err(ManagedError::UnboundShare)));
    assert!(matches!(device.bind(&id('a'), "../x"), Err(ManagedError::InvalidPath(_))));
    device.bind(&id('a'), "sub/folder").unwrap();
    device.focus(vec![id('a')]);
    let known = device.session_state().unwrap();
    assert_eq!(known.available_shares, vec![id('a')]);
    assert_eq!(known.focus_shares, Some(vec![id('a')]));
}

fn request(c: char, name: &str) -> ShareRequest {
    ShareRequest { request_id: id(c), name: name.into(), mode: SyncMode::ToPc }
}

#[test]
fn requests_are_kept_until_they_are_answered() {
    let mut config = config(&[]);
    let settled = settle_requests(&mut config, &vec![request('f', "Fotos")], &vec![]).unwrap();
    assert!(settled.accepted.is_empty() && settled.rejected.is_empty());
    assert_eq!(config.share_requests.len(), 1);
    settle_requests(&mut config, &vec![request('f', "Fotos")], &vec![]).unwrap();
    assert_eq!(config.share_requests.len(), 1);
    assert!(matches!(
        settle_requests(&mut config, &vec![request('f', "Outro nome")], &vec![]),
        Err(SessionError::ReusedRequest)
    ));
    let settled = settle_requests(&mut config, &vec![], &vec![id('f')]).unwrap();
    assert_eq!(settled.cancelled, vec![id('f')]);
    assert!(config.share_requests.is_empty());
    assert_eq!(
        settle_requests(&mut config, &vec![request('f', "")], &vec![]).err(),
        Some(SessionError::InvalidRequestName)
    );
    assert_eq!(
        settle_requests(&mut config, &vec![], &vec!["x".into()]).err(),
        Some(SessionError::InvalidIdentity)
    );
    config.rejected_requests.push(request('f', "Fotos"));
    let settled = settle_requests(&mut config, &vec![request('f', "Fotos")], &vec![]).unwrap();
    assert_eq!(settled.rejected, vec![id('f')]);
}

#[test]
fn an_offer_is_checked() {
    let config = config(&['a']);
    let offer = |requests: Vec<ShareRequest>, cancels: Vec<String>, available: Vec<String>| {
        Message::Capabilities {
            device_id: id('d'),
            share_requests: requests,
            cancel_intents: cancels,
            available_shares: available.clone(),
            requested_share_ids: available,
            audit: true,
            unlink_requested: false,
        }
    };
    let fault = |m: Message| capabilities(m, &id('d'), &config).err();
    assert_eq!(fault(Message::Scan), Some(SessionError::ExpectedCapabilities));
    let other = capabilities(offer(vec![], vec![], vec![]), &id('e'), &config);
    assert_eq!(other.err(), Some(SessionError::DeviceMismatch));
    assert_eq!(
        fault(offer(vec![], vec![], vec!["x".into()])),
        Some(SessionError::InvalidIdentity)
    );
    assert_eq!(
        fault(offer(vec![], vec![], vec![id('b')])),
        Some(SessionError::UnknownShare)
    );
    assert_eq!(
        fault(offer(vec![request('f', "x"), request('f', "x")], vec![], vec![])),
        Some(SessionError::DuplicateRequest)
    );
    assert_eq!(
        fault(offer(vec![], vec![id('f'), id('f')], vec![])),
        Some(SessionError::DuplicateCancellation)
    );
    assert_eq!(
        fault(offer(vec![request('f', "x")], vec![id('f')], vec![])),
        Some(SessionError::PendingAndCancelled)
    );
}

#[test]
fn one_phone_at_a_time_is_welcome() {
    let mut config = config(&[]);
    assert_eq!(welcome(&mut config, "first"), Ok(true));
    assert_eq!(welcome(&mut config, "first"), Ok(false));
    assert_eq!(welcome(&mut config, "other"), Err(SessionError::AnotherDevice));
    assert_eq!(started(&Message::Scan), Err(SessionError::ExpectedStart));
}

#[test]
fn completed_remappings_are_forgotten() {
    let mut config = config(&['a', 'b']);
    for share in &mut config.shares {
        share.remap_policy = Some(RemapPolicy::Pc);
    }
    clear_remaps(&mut config, &vec![id('a')]);
    assert_eq!(config.shares[0].remap_policy, None);
    assert_eq!(config.shares[1].remap_policy, Some(RemapPolicy::Pc));
}

#[test]
fn a_phone_proves_that_it_knows_the_secret() {
    let (pair, secret, device) = (id('1'), id('2'), id('d'));
    let Some(Greeting::Challenge { reply, nonce, device_id }) =
        server_auth(client_hello(&pair, &device), &pair)
    else {
        panic!("a phone was not welcomed");
    };
    assert_eq!(device_id, device);
    assert_eq!(nonce.len(), 64);
    let proof = client_auth(reply, &pair, &secret, &device).unwrap();
    assert!(matches!(
        server_proof(proof, &secret, &nonce, &pair, &device),
        Ok(Message::Ready)
    ));
    assert!(client_ready(Message::Ready).is_ok());
    assert!(matches!(
        client_ready(Message::Scan),
        Err(ProtocolError::AuthenticationRejected)
    ));
    let challenge = || Message::Challenge { nonce: nonce.clone() };
    let wrong = client_auth(challenge(), &pair, &id('3'), &device).unwrap();
    assert!(matches!(
        server_proof(wrong, &secret, &nonce, &pair, &device),
        Err(ProtocolError::AuthenticationFailed)
    ));
    assert!(matches!(
        server_hello(client_hello(&id('9'), &device), &pair, nonce.clone()),
        Greeting::Refused { error: ProtocolError::WrongPair, .. }
    ));
    assert!(matches!(
        server_hello(Message::Scan, &pair, nonce.clone()),
        Greeting::Refused { error: ProtocolError::ExpectedHello, .. }
    ));
    assert_eq!(PROTOCOL_VERSION, 9);
}

#[test]
fn frames_carry_their_length() {
    let frame = send(&b"hello".to_vec()).unwrap();
    assert_eq!(&frame[..4], &[0, 0, 0, 5]);
    assert_eq!(frame_length(&frame[..4]).unwrap(), 5);
    assert_eq!(receive(&frame).unwrap(), b"hello");
    assert_eq!(receive_after_first(frame[0], &frame[1..]).unwrap(), b"hello");
    assert!(matches!(receive(&frame[..3]), Err(ProtocolError::Ended)));
    assert!(matches!(receive(&frame[..6]), Err(ProtocolError::Ended)));
    let large = ((MAX_FRAME + 1) as u32).to_be_bytes();
    assert!(matches!(frame_length(&large), Err(ProtocolError::FrameTooLarge)));
}

#[test]
fn changes_wait_until_they_settle() {
    let config = config(&['a']);
    let policy = Ignore::parse("*.tmp\n");
    let mut watch = Watch::new(false, 0);
    let rewatch = watch.refresh(&config.shares);
    assert_eq!(rewatch.watch.len(), 1);
    assert!(rewatch.unwatch.is_empty());
    let a = id('a');
    assert!(!watch.changed(&a, &policy, "/a/x.tmp", false, Notice::Plain, 10));
    assert!(!watch.changed(&a, &policy, "/b/x", false, Notice::Plain, 10));
    assert!(!watch.changed(&a, &policy, "/a/x", false, Notice::Access, 10));
    assert!(watch.changed(&a, &policy, "/a/x", false, Notice::Plain, 10));
    assert!(!watch.changed(&a, &policy, "/a/y", false, Notice::Plain, 20));
    assert!(!watch.begin(20 + DEBOUNCE_MS - 1));
    assert!(matches!(
        watch.look(&a, false, true, true, 20 + DEBOUNCE_MS - 1),
        Look::Later
    ));
    let Look::Hint { full, paths, urgent, wake } =
        watch.look(&a, false, true, true, 20 + DEBOUNCE_MS)
    else {
        panic!("a change was not looked at");
    };
    assert!(!full && urgent && wake);
    assert_eq!(paths.unwrap().to_list(), vec!["x", "y"]);
    assert!(matches!(watch.look(&a, false, true, true, 9_000), Look::Later));
    assert_eq!(DEBOUNCE_MS, 350);
}

#[test]
fn a_missing_folder_is_looked_at_whole_once_it_is_back() {
    let config = config(&['a']);
    let policy = Ignore::parse("");
    let mut watch = Watch::new(false, 0);
    watch.refresh(&config.shares);
    let a = id('a');
    watch.changed(&a, &policy, "/a/x", false, Notice::Plain, 10);
    assert!(matches!(watch.look(&a, false, false, true, 10_000), Look::Unreachable));
    let Look::Hint { paths, .. } = watch.look(&a, false, true, true, 20_000) else {
        panic!("the folder was forgotten");
    };
    assert_eq!(paths.unwrap().to_list(), vec![""]);
    watch.changed(&a, &policy, "/a/folder", true, Notice::Tree, 30_000);
    let mut reachable = StringSet::new();
    reachable.insert(a.clone());
    let handed = watch.connect(&reachable, 30_001);
    assert_eq!(handed.len(), 1);
    assert_eq!(handed[0].1.to_list(), vec![""]);
    assert!(watch.connect(&reachable, 30_002).is_empty());
}

#[test]
fn every_share_is_looked_at_now_and_again() {
    let config = config(&['a']);
    let mut watch = Watch::new(false, 0);
    watch.refresh(&config.shares);
    let a = id('a');
    assert!(!watch.begin(FALLBACK_MS - 1));
    assert!(watch.begin(FALLBACK_MS));
    assert!(matches!(
        watch.look(&a, true, true, true, FALLBACK_MS),
        Look::Hint { full: false, paths: None, urgent: false, wake: false }
    ));
    watch.end(true, FALLBACK_MS);
    assert!(!watch.begin(FALLBACK_MS + 1));
    watch.begin(FULL_MS);
    assert!(matches!(
        watch.look(&a, false, true, false, FULL_MS),
        Look::Hint { full: true, wake: true, .. }
    ));
    assert!(elapsed(10, 5, 5));
    assert!(!elapsed(5, 10, 1));
    assert!(calls(true, None));
    assert!(calls(true, Some(false)));
    assert!(!calls(true, Some(true)));
    let rewatch = watch.refresh(&vec![]);
    assert_eq!(rewatch.unwatch, vec!["/a"]);
    assert!(watch.watched().is_empty());
}

#[test]
fn a_phone_that_is_turned_away_learns_why() {
    let (pair, device) = (id('1'), id('d'));
    assert!(matches!(
        server_auth(client_hello(&id('2'), &device), &pair),
        Some(Greeting::Refused { reply: None, error: ProtocolError::WrongPair })
    ));
    assert!(matches!(
        server_auth(Message::Scan, &pair),
        Some(Greeting::Refused { reply: None, error: ProtocolError::ExpectedHello })
    ));
    assert!(matches!(
        server_auth(Message::Error { message: "no".into() }, &pair),
        Some(Greeting::Refused { reply: None, error: ProtocolError::Peer(text) }) if text == "no"
    ));
}

#[test]
fn nothing_is_served_while_synchronisation_is_paused() {
    let mut config = config(&['a']);
    assert!(paused_reply(&config).is_none());
    config.sync_paused = true;
    assert!(matches!(paused_reply(&config), Some(Message::SessionDone)));
}
