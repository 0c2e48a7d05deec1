//! The replacement of a file in steps, none of which loses a version: the
//! record comes first, the old version is moved aside, the new one takes the
//! free place, and the record is closed. What an interruption leaves behind is
//! settled from the record.

use crate::config::owned_text;
use crate::model::{text_of, Entry, EntryView};
use crate::storage::{
    borrowed_entry, closed_by, hash_of, plan_for, told, InstallPlan, RecoveryAction, RecoveryRecord,
};
use crate::text::Chars;
use vstd::prelude::*;

verus! {

/// How far a replacement has come.
#[derive(Clone, Copy, Debug, PartialEq, Eq, Structural)]
pub enum InstallStage {
    /// The record is still to be kept.
    Recording,
    /// The old version is still to be moved aside.
    Displacing,
    /// The new version is still to take its place.
    Publishing,
    /// The record is still to be closed.
    Finishing,
    /// The new version is in its place.
    Complete,
    /// What was moved aside is not the version that was to be replaced.
    Changed,
    /// Something else took the place.
    Occupied,
    /// The replacement was given up, after a change or else because the place
    /// was taken.
    Stale { changed: bool },
}

/// What a replacement asks for next.
#[derive(Clone, Copy, Debug, PartialEq, Eq, Structural)]
pub enum InstallStep {
    /// Keep the record as it is now.
    KeepRecord,
    /// Move the file into the recovery area.
    Displace,
    /// Put the new version into its place, if that is free.
    Publish,
    /// Settle what is recorded.
    Recover,
    /// Nothing: the new version is in its place.
    Finish,
    /// Nothing: the replacement was given up.
    GiveUp { changed: bool },
}

/// What came of a step.
#[derive(Clone, Debug)]
pub enum InstallEvent {
    /// The step is done.
    Done,
    /// The file was moved aside; the digest is that of what was moved.
    Displaced(String),
    /// The place is taken.
    Occupied,
}

/// [`InstallEvent`] as a mathematical value.
pub enum Seen {
    Done,
    Displaced(Chars),
    Occupied,
}

impl View for InstallEvent {
    type V = Seen;

    open spec fn view(&self) -> Seen {
        match self {
            InstallEvent::Done => Seen::Done,
            InstallEvent::Displaced(hash) => Seen::Displaced(hash@),
            InstallEvent::Occupied => Seen::Occupied,
        }
    }
}

/// [`Install`] as a mathematical value.
#[verifier::ext_equal]
pub struct InstallView {
    pub path: Chars,
    pub backup: Chars,
    pub old: Option<Chars>,
    pub new: Option<Chars>,
    pub finished: bool,
    pub expected: Option<Chars>,
    pub stage: InstallStage,
}

/// The step that belongs to a stage.
pub open spec fn step_of(stage: InstallStage) -> InstallStep {
    match stage {
        InstallStage::Recording => InstallStep::KeepRecord,
        InstallStage::Displacing => InstallStep::Displace,
        InstallStage::Publishing => InstallStep::Publish,
        InstallStage::Finishing => InstallStep::KeepRecord,
        InstallStage::Complete => InstallStep::Finish,
        InstallStage::Changed => InstallStep::Recover,
        InstallStage::Occupied => InstallStep::Recover,
        InstallStage::Stale { changed } => InstallStep::GiveUp { changed },
    }
}

/// How a replacement goes on. What does not answer the step that was asked for
/// changes nothing.
pub open spec fn goes_on(v: InstallView, e: Seen) -> InstallView {
    match (v.stage, e) {
        (InstallStage::Recording, Seen::Done) => InstallView {
            stage: if v.old is Some {
                InstallStage::Displacing
            } else {
                InstallStage::Publishing
            },
            ..v
        },
        (InstallStage::Displacing, Seen::Displaced(hash)) => InstallView {
            stage: if v.expected == Some(hash) {
                InstallStage::Publishing
            } else {
                InstallStage::Changed
            },
            ..v
        },
        (InstallStage::Publishing, Seen::Done) => InstallView {
            finished: true,
            stage: InstallStage::Finishing,
            ..v
        },
        (InstallStage::Publishing, Seen::Occupied) => InstallView {
            stage: InstallStage::Occupied,
            ..v
        },
        (InstallStage::Finishing, Seen::Done) => InstallView { stage: InstallStage::Complete, ..v },
        (InstallStage::Changed, Seen::Done) => InstallView {
            stage: InstallStage::Stale { changed: true },
            ..v
        },
        (InstallStage::Occupied, Seen::Done) => InstallView {
            stage: InstallStage::Stale { changed: false },
            ..v
        },
        _ => v,
    }
}

/// A replacement on its way.
pub struct Install {
    record: RecoveryRecord,
    expected: Option<String>,
    stage: InstallStage,
}

impl View for Install {
    type V = InstallView;

    closed spec fn view(&self) -> InstallView {
        InstallView {
            path: self.record.path@,
            backup: self.record.backup@,
            old: owned_text(self.record.old_hash),
            new: owned_text(self.record.new_hash),
            finished: self.record.finished,
            expected: owned_text(self.expected),
            stage: self.stage,
        }
    }
}

/// A replacement that has not begun.
pub open spec fn begun(
    path: Chars,
    backup: Chars,
    old: Option<Chars>,
    new: Chars,
    expected: Option<Chars>,
) -> InstallView {
    InstallView {
        path,
        backup,
        old,
        new: Some(new),
        finished: false,
        expected,
        stage: InstallStage::Recording,
    }
}

impl Install {
    /// Begins to replace what stands at a path. The old version is to be kept
    /// under `id`; `expected` is the version that the sender knew.
    pub fn begin(
        id: String,
        path: &str,
        entry: &Entry,
        current: Option<&Entry>,
        expected: Option<&str>,
    ) -> (r: Self)
        ensures
            r@ == begun(
                path@,
                id@,
                hash_of(borrowed_entry(current)),
                entry.hash@,
                text_of(expected),
            ),
    {
        let expected = match expected {
            Some(hash) => Some(hash.to_owned()),
            None => None,
        };
        Install {
            record: RecoveryRecord::begin(id, path, entry, current),
            expected,
            stage: InstallStage::Recording,
        }
    }

    /// What is to be done next.
    pub fn step(&self) -> (r: InstallStep)
        ensures
            r == step_of(self@.stage),
    {
        match self.stage {
            InstallStage::Recording => InstallStep::KeepRecord,
            InstallStage::Displacing => InstallStep::Displace,
            InstallStage::Publishing => InstallStep::Publish,
            InstallStage::Finishing => InstallStep::KeepRecord,
            InstallStage::Complete => InstallStep::Finish,
            InstallStage::Changed => InstallStep::Recover,
            InstallStage::Occupied => InstallStep::Recover,
            InstallStage::Stale { changed } => InstallStep::GiveUp { changed },
        }
    }

    /// The record as it is to be kept.
    pub fn record(&self) -> (r: &RecoveryRecord)
        ensures
            r.path@ == self@.path,
            r.backup@ == self@.backup,
            r.finished == self@.finished,
            owned_text(r.new_hash) == self@.new,
            owned_text(r.old_hash) == self@.old,
    {
        &self.record
    }

    /// Takes note of what came of a step.
    pub fn take(&mut self, event: InstallEvent)
        ensures
            final(self)@ == goes_on(old(self)@, event@),
    {
        let stage = self.stage;
        match event {
            InstallEvent::Done => match stage {
                InstallStage::Recording => {
                    self.stage = if self.record.old_hash.is_some() {
                        InstallStage::Displacing
                    } else {
                        InstallStage::Publishing
                    };
                },
                InstallStage::Publishing => {
                    self.record.finished = true;
                    self.stage = InstallStage::Finishing;
                },
                InstallStage::Finishing => {
                    self.stage = InstallStage::Complete;
                },
                InstallStage::Changed => {
                    self.stage = InstallStage::Stale { changed: true };
                },
                InstallStage::Occupied => {
                    self.stage = InstallStage::Stale { changed: false };
                },
                _ => {},
            },
            InstallEvent::Displaced(hash) => {
                if stage == InstallStage::Displacing {
                    let known = match &self.expected {
                        Some(expected) => {
                            RecoveryRecord::displaced_as_expected(
                                hash.as_str(),
                                Some(expected.as_str()),
                            )
                        },
                        None => RecoveryRecord::displaced_as_expected(hash.as_str(), None),
                    };
                    self.stage = if known {
                        InstallStage::Publishing
                    } else {
                        InstallStage::Changed
                    };
                }
            },
            InstallEvent::Occupied => {
                if stage == InstallStage::Publishing {
                    self.stage = InstallStage::Occupied;
                }
            },
        }
    }
}

/// What stands on the disk: the file, the version that was moved aside, and
/// whether the record, if there is one, is closed.
#[verifier::ext_equal]
pub struct Place {
    pub target: Option<Chars>,
    pub backup: Option<Chars>,
    pub record: Option<bool>,
}

/// A content is there, in its place or aside.
pub open spec fn holds(p: Place, content: Chars) -> bool {
    p.target == Some(content) || p.backup == Some(content)
}

/// An open record brings the version that was moved aside back where the place
/// is free.
pub open spec fn restored(p: Place) -> Place {
    if p.record == Some(false) && p.target is None && p.backup is Some {
        Place { target: p.backup, ..p }
    } else {
        p
    }
}

/// An open record is settled: what it says is closed if it can be told how the
/// replacement ended, and stays open otherwise.
pub open spec fn recovered(p: Place, old: Option<Chars>, new: Option<Chars>) -> Place {
    let q = restored(p);
    if q.record == Some(false) && told(old, new, q.target, q.backup, q.backup is Some) {
        Place { record: Some(true), ..q }
    } else {
        q
    }
}

/// What the step of a stage does on the disk.
pub open spec fn effect(p: Place, v: InstallView) -> Place {
    match v.stage {
        InstallStage::Recording => Place { record: Some(v.finished), ..p },
        InstallStage::Displacing => if p.target is Some {
            Place { target: None, backup: p.target, ..p }
        } else {
            p
        },
        InstallStage::Publishing => if p.target is None {
            Place { target: v.new, ..p }
        } else {
            p
        },
        InstallStage::Finishing => Place { record: Some(v.finished), ..p },
        InstallStage::Changed => recovered(p, v.old, v.new),
        InstallStage::Occupied => recovered(p, v.old, v.new),
        _ => p,
    }
}

/// What is seen of the step of a stage. A file that is not there any more
/// cannot be moved: the replacement stays where it is.
pub open spec fn sight(p: Place, v: InstallView) -> Seen {
    match v.stage {
        InstallStage::Displacing => if p.target is Some {
            Seen::Displaced(p.target->0)
        } else {
            Seen::Done
        },
        InstallStage::Publishing => if p.target is None {
            Seen::Done
        } else {
            Seen::Occupied
        },
        _ => Seen::Done,
    }
}

/// One step, done and taken note of.
pub open spec fn turn(p: Place, v: InstallView) -> (Place, InstallView) {
    (effect(p, v), goes_on(v, sight(p, v)))
}

/// Some steps in a row.
pub open spec fn turns(p: Place, v: InstallView, n: nat) -> (Place, InstallView)
    decreases n,
{
    if n == 0 {
        (p, v)
    } else {
        let (q, w) = turns(p, v, (n - 1) as nat);
        turn(q, w)
    }
}

/// The place of a file before its replacement begins.
pub open spec fn untouched(current: Option<Chars>) -> Place {
    Place { target: current, backup: None, record: None }
}

/// A replacement that nobody disturbs puts the new version into its place,
/// keeps the old one and closes the record.
pub proof fn law_install_completes(path: Chars, id: Chars, current: Option<Chars>, new: Chars)
    ensures
        ({
            let n: nat = if current is Some {
                4
            } else {
                3
            };
            let (p, v) = turns(untouched(current), begun(path, id, current, new, current), n);
            &&& v.stage == InstallStage::Complete
            &&& p == (Place { target: Some(new), backup: current, record: Some(true) })
        }),
{
    reveal_with_fuel(turns, 5);
}

/// Where an undisturbed replacement can stand.
spec fn on_course(p: Place, v: InstallView, current: Option<Chars>, new: Chars) -> bool {
    &&& v.old == current
    &&& v.new == Some(new)
    &&& v.expected == current
    &&& v.finished == (v.stage is Finishing || v.stage is Complete)
    &&& match v.stage {
        InstallStage::Recording => p == untouched(current),
        InstallStage::Displacing => current is Some && p == (Place {
            target: current,
            backup: None,
            record: Some(false),
        }),
        InstallStage::Publishing => p == (Place {
            target: None,
            backup: current,
            record: Some(false),
        }),
        InstallStage::Finishing => p == (Place {
            target: Some(new),
            backup: current,
            record: Some(false),
        }),
        InstallStage::Complete => p == (Place {
            target: Some(new),
            backup: current,
            record: Some(true),
        }),
        _ => false,
    }
}

proof fn lemma_on_course(path: Chars, id: Chars, current: Option<Chars>, new: Chars, n: nat)
    ensures
        ({
            let (p, v) = turns(untouched(current), begun(path, id, current, new, current), n);
            on_course(p, v, current, new)
        }),
    decreases n,
{
    if n > 0 {
        lemma_on_course(path, id, current, new, (n - 1) as nat);
    }
}

/// Wherever an undisturbed replacement is interrupted, recovery settles it: the
/// file is the old version or the new one, the old one is still there, and no
/// record stays open.
pub proof fn law_interrupted_install_settles(
    path: Chars,
    id: Chars,
    current: Option<Chars>,
    new: Chars,
    n: nat,
)
    ensures
        ({
            let (p, v) = turns(untouched(current), begun(path, id, current, new, current), n);
            let q = recovered(p, current, Some(new));
            &&& q.target == current || q.target == Some(new)
            &&& current is Some ==> q.target is Some && holds(q, current->0)
            &&& q.record != Some(false)
        }),
{
    lemma_on_course(path, id, current, new, n);
}

/// Recovery that is repeated, or begun again after it was interrupted, ends as
/// it does at once.
pub proof fn law_recovery_can_be_repeated(p: Place, old: Option<Chars>, new: Option<Chars>)
    ensures
        recovered(recovered(p, old, new), old, new) == recovered(p, old, new),
        recovered(restored(p), old, new) == recovered(p, old, new),
{
}

/// What somebody else makes of a file meanwhile: nothing, or another content
/// or none.
pub open spec fn edited(p: Place, edit: Option<Option<Chars>>) -> Place {
    match edit {
        None => p,
        Some(target) => Place { target, ..p },
    }
}

/// Steps in a row, each after what somebody else did.
pub open spec fn disturbed(p: Place, v: InstallView, edits: Seq<Option<Option<Chars>>>) -> (
    Place,
    InstallView,
)
    decreases edits.len(),
{
    if edits.len() == 0 {
        (p, v)
    } else {
        let (q, w) = disturbed(p, v, edits.drop_last());
        turn(edited(q, edits.last()), w)
    }
}

proof fn lemma_aside_is_free(p: Place, v: InstallView, edits: Seq<Option<Option<Chars>>>)
    requires
        p.backup is None,
        v.stage == InstallStage::Recording,
        v.finished == false,
    ensures
        ({
            let (q, w) = disturbed(p, v, edits);
            &&& w.stage == InstallStage::Recording || w.stage == InstallStage::Displacing
                ==> q.backup is None
            &&& w.old == v.old
            &&& w.new == v.new
        }),
    decreases edits.len(),
{
    if edits.len() > 0 {
        lemma_aside_is_free(p, v, edits.drop_last());
    }
}

/// Whatever somebody else does to a file while it is replaced, no step and no
/// recovery after it takes away a content that was there.
pub proof fn law_install_loses_nothing(
    path: Chars,
    id: Chars,
    current: Option<Chars>,
    new: Chars,
    expected: Option<Chars>,
    edits: Seq<Option<Option<Chars>>>,
    edit: Option<Option<Chars>>,
    content: Chars,
)
    requires
        ({
            let (p, v) = disturbed(
                untouched(current),
                begun(path, id, current, new, expected),
                edits,
            );
            holds(edited(p, edit), content)
        }),
    ensures
        ({
            let (p, v) = disturbed(
                untouched(current),
                begun(path, id, current, new, expected),
                edits,
            );
            let q = turn(edited(p, edit), v).0;
            &&& holds(q, content)
            &&& holds(recovered(q, current, Some(new)), content)
        }),
{
    lemma_aside_is_free(untouched(current), begun(path, id, current, new, expected), edits);
}

/// What somebody else put into the place of a file that was moved aside stays
/// there: the replacement is given up.
pub proof fn law_install_yields(p: Place, v: InstallView)
    requires
        v.stage == InstallStage::Publishing,
        p.target is Some,
    ensures
        turn(p, v).0 == p,
        ({
            let (q, w) = turns(p, v, 2);
            q.target == p.target && w.stage == InstallStage::Stale { changed: false }
        }),
{
    reveal_with_fuel(turns, 3);
}

/// A version in the recovery area: its content, and whether its record is
/// settled.
pub struct VersionView {
    pub content: Chars,
    pub finished: bool,
}

/// A file and the versions in the recovery area, by identity.
#[verifier::ext_equal]
pub struct Shelf {
    pub target: Option<EntryView>,
    pub versions: Map<Chars, VersionView>,
}

/// A file with the versions in the recovery area after new content was put
/// into its place, the displaced version under an identity of its own; nothing
/// changes where the plan or a step fails.
pub open spec fn put_in_place(
    s: Shelf,
    path: Chars,
    id: Chars,
    entry: EntryView,
    expected: Option<Chars>,
) -> Shelf {
    let now = hash_of(s.target);
    let (p, v) = turns(
        untouched(now),
        begun(path, id, now, entry.hash, expected),
        if now is Some {
            4
        } else {
            3
        },
    );
    match plan_for(s.target, entry, expected) {
        None => s,
        Some(InstallPlan::AlreadyThere) => s,
        Some(_) => if v.stage == InstallStage::Complete && p.target == Some(entry.hash) {
            Shelf {
                target: Some(entry),
                versions: match p.backup {
                    Some(content) => s.versions.insert(
                        id,
                        VersionView { content, finished: p.record == Some(true) },
                    ),
                    None => s.versions,
                },
            }
        } else {
            s
        },
    }
}

/// A version put back: it is put into its place, where the present one is
/// expected, and then its record is settled.
pub open spec fn put_back(
    s: Shelf,
    path: Chars,
    version: Chars,
    entry: EntryView,
    fresh: Chars,
) -> Shelf {
    let t = put_in_place(s, path, fresh, entry, hash_of(s.target));
    Shelf {
        versions: t.versions.insert(
            version,
            VersionView {
                finished: closed_by(t.versions[version].finished, RecoveryAction::Restore),
                ..t.versions[version]
            },
        ),
        ..t
    }
}

/// Restoring gives a version back: the file holds it, its record is settled and
/// it is still in the recovery area, and what the file held before is kept
/// there too.
pub proof fn law_restore_gives_back(
    s: Shelf,
    path: Chars,
    version: Chars,
    entry: EntryView,
    fresh: Chars,
)
    requires
        s.versions.dom().contains(version),
        s.versions[version].content == entry.hash,
        !s.versions.dom().contains(fresh),
    ensures
        ({
            let t = put_back(s, path, version, entry, fresh);
            &&& t.target == Some(entry)
            &&& t.versions.dom().contains(version)
            &&& t.versions[version] == (VersionView { content: entry.hash, finished: true })
            &&& s.target is Some && s.target->0 != entry ==> t.versions.dom().contains(fresh)
                && t.versions[fresh] == (VersionView { content: s.target->0.hash, finished: true })
            &&& forall|id: Chars| #[trigger]
                s.versions.dom().contains(id) && id != version ==> t.versions.dom().contains(id)
                    && t.versions[id] == s.versions[id]
        }),
{
    law_install_completes(path, fresh, hash_of(s.target), entry.hash);
}

/// What an order to the file system does, with the record as it stands.
pub open spec fn carried_out(step: InstallStep, p: Place, v: InstallView) -> Place {
    match step {
        InstallStep::KeepRecord => Place { record: Some(v.finished), ..p },
        InstallStep::Displace => if p.target is Some {
            Place { target: None, backup: p.target, ..p }
        } else {
            p
        },
        InstallStep::Publish => if p.target is None {
            Place { target: v.new, ..p }
        } else {
            p
        },
        InstallStep::Recover => recovered(p, v.old, v.new),
        InstallStep::Finish => p,
        InstallStep::GiveUp { changed } => p,
    }
}

/// Each stage gives the order that has its effect; the end gives none.
pub proof fn law_each_stage_gives_its_order(p: Place, v: InstallView)
    ensures
        carried_out(step_of(v.stage), p, v) == effect(p, v),
        step_of(v.stage) is Finish <==> v.stage is Complete,
        step_of(v.stage) is GiveUp <==> v.stage is Stale,
        v.stage matches InstallStage::Stale { changed } ==> step_of(v.stage) == (
        InstallStep::GiveUp { changed }),
{
}

/// A version that was written meanwhile is not replaced: where the file that
/// was moved aside is not the one that was to be replaced, it is put back, and
/// the replacement is given up.
pub proof fn law_changed_file_is_put_back(p: Place, v: InstallView, content: Chars)
    requires
        v.stage == InstallStage::Displacing,
        p.target == Some(content),
        p.record == Some(false),
        v.expected != Some(content),
    ensures
        ({
            let (q, u) = turns(p, v, 2);
            &&& q.target == Some(content)
            &&& u.stage == InstallStage::Stale { changed: true }
        }),
        turn(p, v).1.stage == InstallStage::Changed,
{
    reveal_with_fuel(turns, 3);
}

} // verus!
