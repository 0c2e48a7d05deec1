use rowd::collections::StringMap;
use rowd::config::{RemapPolicy, SyncMode};
use rowd::device::fresh_share;
use rowd::install::{Install, InstallEvent, InstallStep};
use rowd::model::Entry;
use rowd::protocol::Message;
use rowd::session::{
    after_failure, attend, failed_operation, hints_stored, next_served, progress_due, share_ready,
    unlink_acknowledged, wake_messages, Attention, Line, SessionError,
};
use rowd::storage::{hash_reader, RecoveryRecord};
use rowd::sync::{announced, confirmed, SyncError};

/// A place on a disk in memory: the file, what was moved aside, the record.
#[derive(Clone, Debug, Default)]
struct Place {
    target: Option<String>,
    backup: Option<String>,
    record: Option<RecoveryRecord>,
}

impl Place {
    fn recover(&mut self) -> bool {
        let Some(record) = self.record.as_mut() else {
            return true;
        };
        if record.needs_restore(self.target.is_some(), self.backup.is_some()) {
            self.target = self.backup.clone();
        }
        record
            .settle(self.target.as_deref(), self.backup.as_deref(), self.backup.is_some())
            .is_ok()
    }

    fn perform(&mut self, install: &Install, new: &str) -> Option<InstallEvent> {
        match install.step() {
            InstallStep::KeepRecord => {
                self.record = Some(install.record().clone());
                Some(InstallEvent::Done)
            }
            InstallStep::Displace => {
                let moved = self.target.take().unwrap();
                self.backup = Some(moved.clone());
                Some(InstallEvent::Displaced(moved))
            }
            InstallStep::Publish if self.target.is_some() => Some(InstallEvent::Occupied),
            InstallStep::Publish => {
                self.target = Some(new.into());
                Some(InstallEvent::Done)
            }
            InstallStep::Recover => {
                self.recover();
                Some(InstallEvent::Done)
            }
            InstallStep::Finish | InstallStep::GiveUp { .. } => None,
        }
    }
}

fn digest(content: &str) -> String {
    hash_reader(content.as_bytes()).0
}

fn begin(current: Option<&str>, new: &str, expected: Option<&str>) -> Install {
    let entry = Entry { hash: digest(new), size: new.len() as u64 };
    let current = current.map(|c| Entry { hash: digest(c), size: c.len() as u64 });
    let expected = expected.map(digest);
    Install::begin("a".repeat(64), "notes.txt", &entry, current.as_ref(), expected.as_deref())
}

#[test]
fn a_replacement_keeps_the_old_version() {
    let mut place = Place { target: Some(digest("old")), ..Place::default() };
    let mut install = begin(Some("old"), "new", Some("old"));
    let mut steps = vec![];
    while let Some(event) = place.perform(&install, &digest("new")) {
        steps.push(install.step());
        install.take(event);
    }
    assert_eq!(
        steps,
        vec![
            InstallStep::KeepRecord,
            InstallStep::Displace,
            InstallStep::Publish,
            InstallStep::KeepRecord
        ]
    );
    assert_eq!(install.step(), InstallStep::Finish);
    assert_eq!(place.target, Some(digest("new")));
    assert_eq!(place.backup, Some(digest("old")));
    let record = place.record.unwrap();
    assert!(record.finished);
    assert_eq!(record.path, "notes.txt");
    assert_eq!(record.old_hash, Some(digest("old")));
    assert_eq!(record.new_hash, Some(digest("new")));
}

#[test]
fn a_new_file_displaces_nothing() {
    let mut place = Place::default();
    let mut install = begin(None, "new", None);
    while let Some(event) = place.perform(&install, &digest("new")) {
        assert_ne!(install.step(), InstallStep::Displace);
        install.take(event);
    }
    assert_eq!(install.step(), InstallStep::Finish);
    assert_eq!((place.target, place.backup), (Some(digest("new")), None));
}

#[test]
fn an_interrupted_replacement_settles_wherever_it_stopped() {
    for steps in 0..6usize {
        let mut place = Place { target: Some(digest("old")), ..Place::default() };
        let mut install = begin(Some("old"), "new", Some("old"));
        for _ in 0..steps {
            if let Some(event) = place.perform(&install, &digest("new")) {
                install.take(event);
            }
        }
        assert!(place.recover(), "{steps}");
        let target = place.target.clone().unwrap();
        assert!(target == digest("old") || target == digest("new"), "{steps}");
        assert!(target == digest("old") || place.backup == Some(digest("old")), "{steps}");
        let once = (place.target.clone(), place.backup.clone());
        assert!(place.recover());
        assert_eq!(once, (place.target.clone(), place.backup.clone()));
        assert!(place.record.is_none_or(|r| r.finished), "{steps}");
    }
}

#[test]
fn a_change_at_the_last_moment_is_given_back() {
    let mut place = Place { target: Some(digest("edited")), ..Place::default() };
    let mut install = begin(Some("old"), "new", Some("old"));
    while let Some(event) = place.perform(&install, &digest("new")) {
        install.take(event);
    }
    assert_eq!(install.step(), InstallStep::GiveUp { changed: true });
    assert_eq!(place.target, Some(digest("edited")));
    assert!(place.record.unwrap().finished);
}

#[test]
fn a_file_that_appears_meanwhile_stays() {
    let mut place = Place { target: Some(digest("old")), ..Place::default() };
    let mut install = begin(Some("old"), "new", Some("old"));
    while install.step() != InstallStep::Publish {
        let event = place.perform(&install, &digest("new")).unwrap();
        install.take(event);
    }
    place.target = Some(digest("made anew"));
    while let Some(event) = place.perform(&install, &digest("new")) {
        install.take(event);
    }
    assert_eq!(install.step(), InstallStep::GiveUp { changed: false });
    assert_eq!(place.target, Some(digest("made anew")));
    assert_eq!(place.backup, Some(digest("old")));
    assert!(!place.record.unwrap().finished);
}

#[test]
fn an_answer_to_another_step_changes_nothing() {
    let mut install = begin(Some("old"), "new", Some("old"));
    install.take(InstallEvent::Occupied);
    install.take(InstallEvent::Displaced(digest("old")));
    assert_eq!(install.step(), InstallStep::KeepRecord);
    assert!(!install.record().finished);
}

#[test]
fn a_session_listens_before_it_talks() {
    assert_eq!(attend(true, true, Line::Arrived), Attention::Leave);
    assert_eq!(attend(false, true, Line::Closed), Attention::ReadRest);
    assert_eq!(attend(false, false, Line::Arrived), Attention::Read);
    assert_eq!(attend(false, false, Line::Quiet), Attention::Idle);
    assert_eq!(attend(false, false, Line::Closed), Attention::Leave);
}

#[test]
fn a_session_waits_for_hints_to_be_stored() {
    let mut urgent = StringMap::new();
    assert_eq!(hints_stored(&urgent, 9000), Ok(true));
    urgent.insert("a".to_string(), false);
    assert_eq!(hints_stored(&urgent, 9000), Ok(true));
    urgent.insert("b".to_string(), true);
    assert_eq!(hints_stored(&urgent, 4999), Ok(false));
    assert_eq!(hints_stored(&urgent, 5000), Err(SessionError::HintNotStored));
}

#[test]
fn each_changed_share_is_woken_once() {
    let changed = vec!["b".to_string(), "a".to_string(), "b".to_string()];
    let woken: Vec<String> = wake_messages(&changed)
        .into_iter()
        .map(|message| match message {
            Message::WakeShare { share_id } => share_id,
            _ => panic!("not a wake"),
        })
        .collect();
    assert_eq!(woken, vec!["a", "b"]);
    assert!(wake_messages(&vec![]).is_empty());
}

#[test]
fn a_failed_share_ends_the_round_only_once_it_was_chosen() {
    let mut share = fresh_share("c".repeat(64), "Docs".into(), SyncMode::Bidirectional);
    assert_eq!(failed_operation(&share), "sync");
    share.remap_policy = Some(RemapPolicy::Compare);
    assert_eq!(failed_operation(&share), "remap");
    assert!(after_failure(&share, true, "no folder").is_none());
    assert!(matches!(
        after_failure(&share, false, "no folder"),
        Some(Message::ShareSkipped { share_id, reason })
            if share_id == "c".repeat(64) && reason == "no folder"
    ));
}

#[test]
fn the_phone_has_to_answer_what_was_asked() {
    assert_eq!(unlink_acknowledged(&Message::UnlinkAck), Ok(()));
    assert_eq!(
        unlink_acknowledged(&Message::Ready),
        Err(SessionError::UnlinkUnacknowledged)
    );
    assert_eq!(share_ready(&Message::Ready), Ok(()));
    assert_eq!(share_ready(&Message::Accept), Err(SessionError::ShareNotReady));
    assert!(confirmed(&Message::Accept).is_ok());
    assert!(matches!(confirmed(&Message::Ready), Err(SyncError::Unconfirmed)));
    let entry = Entry { hash: digest("x"), size: 1 };
    let other = Entry { hash: digest("y"), size: 1 };
    let blob = Message::Blob { entry: Entry { hash: digest("x"), size: 1 } };
    assert!(announced(&blob, &entry).is_ok());
    assert!(matches!(announced(&blob, &other), Err(SyncError::StaleSource)));
    assert!(matches!(announced(&Message::Ready, &entry), Err(SyncError::ExpectedBlob)));
}

#[test]
fn progress_is_told_now_and_again() {
    assert!(progress_due("a.txt", None));
    assert!(!progress_due("a.txt", Some(249)));
    assert!(progress_due("a.txt", Some(250)));
    assert!(progress_due("", Some(0)));
    assert!(next_served(&Some("a".into()), 1));
    assert!(!next_served(&Some("a".into()), 0));
    assert!(!next_served(&None, 3));
}
