//! How a round begins on the PC: with the few paths that changed, where both
//! sides are sure of the rest, and with all files otherwise.

use crate::collections::{Duplicate, StringMap, StringSet};
use crate::config::{owned_text, RemapPolicy};
use crate::model::{valid_manifest, EntryView, Manifest};
use crate::protocol::Message;
use crate::sync::{
    all_sound, delta_answer_sound, delta_incomplete, delta_possible, known_missing, may_ask_delta,
    State, StateView, MAX_DELTA_PATHS,
};
use crate::text::Chars;
use vstd::prelude::*;

verus! {

/// What the PC does next to begin a round.
#[derive(Clone, Copy, Debug, PartialEq, Eq, Structural)]
pub enum OpeningStep {
    /// Ask the own store which paths changed.
    LookAtOwn,
    /// Ask the phone for the paths that changed.
    Ask,
    /// Read the own files at the paths that the phone names.
    ReadPaths,
    /// Begin with these paths.
    Begin,
    /// Scan both sides.
    ScanAll,
}

/// What came of a step.
pub enum OpeningEvent {
    /// The paths that the own store takes for changed, if it can tell.
    Own(Option<StringSet>),
    /// What the phone answered.
    Answer(Message),
    /// The own files at the paths, if the store can tell.
    Files(Option<Manifest>),
}

/// What the phone tells of single paths.
pub struct Told {
    pub paths: Set<Chars>,
    pub files: Map<Chars, EntryView>,
}

/// [`OpeningEvent`] as a mathematical value. Of an answer that names no paths
/// nothing is left.
pub enum Sighted {
    Own(Option<Set<Chars>>),
    Answer(Option<Told>),
    Files(Option<Map<Chars, EntryView>>),
}

impl View for OpeningEvent {
    type V = Sighted;

    open spec fn view(&self) -> Sighted {
        match self {
            OpeningEvent::Own(Some(paths)) => Sighted::Own(Some(paths@)),
            OpeningEvent::Own(None) => Sighted::Own(None),
            OpeningEvent::Answer(Message::DeltaManifest { paths, files, metrics }) =>
                Sighted::Answer(Some(Told { paths: paths@, files: files@ })),
            OpeningEvent::Answer(_) => Sighted::Answer(None),
            OpeningEvent::Files(Some(files)) => Sighted::Files(Some(files@)),
            OpeningEvent::Files(None) => Sighted::Files(None),
        }
    }
}

/// [`Opening`] as a mathematical value.
#[verifier::ext_equal]
pub struct OpeningView {
    pub step: OpeningStep,
    pub token: Option<Chars>,
    pub remap: Option<RemapPolicy>,
    pub paths: Set<Chars>,
    pub pc: Map<Chars, EntryView>,
    pub android: Map<Chars, EntryView>,
}

/// An answer about single paths can be used.
pub open spec fn usable(paths: Set<Chars>, files: Map<Chars, EntryView>) -> bool {
    paths.len() <= MAX_DELTA_PATHS && all_sound(paths) && files.dom().subset_of(paths)
        && valid_manifest(files)
}

/// How a round begins, given what both sides agreed on before.
pub open spec fn opened(s: StateView, token: Option<Chars>, remap: Option<RemapPolicy>) -> OpeningView {
    OpeningView {
        step: if remap is None && s.last_sync is Some && token is Some {
            OpeningStep::LookAtOwn
        } else {
            OpeningStep::ScanAll
        },
        token,
        remap,
        paths: Set::empty(),
        pc: Map::empty(),
        android: Map::empty(),
    }
}

/// How the beginning of a round goes on. Any doubt ends in a scan of both
/// sides; what answers another step than the one that was asked for changes
/// nothing.
pub open spec fn opening_after(v: OpeningView, s: StateView, e: Sighted) -> OpeningView {
    match (v.step, e) {
        (OpeningStep::LookAtOwn, Sighted::Own(dirty)) => if delta_possible(
            s,
            v.remap,
            v.token is Some,
            dirty,
        ) {
            OpeningView { step: OpeningStep::Ask, paths: dirty->0, ..v }
        } else {
            OpeningView { step: OpeningStep::ScanAll, ..v }
        },
        (OpeningStep::Ask, Sighted::Answer(answer)) => if answer is Some && usable(
            answer->0.paths,
            answer->0.files,
        ) {
            OpeningView {
                step: OpeningStep::ReadPaths,
                paths: answer->0.paths,
                android: answer->0.files,
                ..v
            }
        } else {
            OpeningView { step: OpeningStep::ScanAll, ..v }
        },
        (OpeningStep::ReadPaths, Sighted::Files(pc)) => if pc is Some && !known_missing(
            s.files,
            v.paths,
            pc->0.dom(),
            v.android.dom(),
        ) {
            OpeningView { step: OpeningStep::Begin, pc: pc->0, ..v }
        } else {
            OpeningView { step: OpeningStep::ScanAll, ..v }
        },
        _ => v,
    }
}

/// The beginning of a round.
pub struct Opening {
    step: OpeningStep,
    token: Option<String>,
    remap: Option<RemapPolicy>,
    paths: StringSet,
    pc: Manifest,
    android: Manifest,
}

impl View for Opening {
    type V = OpeningView;

    closed spec fn view(&self) -> OpeningView {
        OpeningView {
            step: self.step,
            token: owned_text(self.token),
            remap: self.remap,
            paths: self.paths@,
            pc: self.pc@,
            android: self.android@,
        }
    }
}

/// The token that the last round of a Share left with the PC, while the program
/// runs.
pub struct HeldToken {
    token: Option<String>,
}

impl View for HeldToken {
    type V = Option<Chars>;

    closed spec fn view(&self) -> Option<Chars> {
        owned_text(self.token)
    }
}

impl HeldToken {
    /// No round has left a token yet.
    pub fn new() -> (r: Self)
        ensures
            r@ is None,
    {
        HeldToken { token: None }
    }

    /// The end of a round was sent to the phone with this token.
    pub fn sent(&mut self, token: String)
        ensures
            final(self)@ == Some(token@),
    {
        self.token = Some(token);
    }
}

impl Opening {
    /// Begins a round. It takes away the token that the last one left; a token
    /// that was stored counts no more.
    pub fn begin(state: &mut State, held: &mut HeldToken, remap: Option<RemapPolicy>) -> (r: Self)
        ensures
            r@ == opened(old(state)@, old(held)@, remap),
            final(held)@ is None,
            final(state)@ == (StateView { base_token: None, ..old(state)@ }),
    {
        let ghost was = state@;
        let token = crate::config::copy_text(&held.token);
        held.token = None;
        state.base_token = None;
        assert(state@ =~= (StateView { base_token: None, ..was }));
        let step = if remap.is_none() && state.last_sync.is_some() && token.is_some() {
            OpeningStep::LookAtOwn
        } else {
            OpeningStep::ScanAll
        };
        Opening {
            step,
            token,
            remap,
            paths: StringSet::new(),
            pc: StringMap::new(),
            android: StringMap::new(),
        }
    }

    /// What is to be done next.
    pub fn step(&self) -> (r: OpeningStep)
        ensures
            r == self@.step,
    {
        self.step
    }

    /// What the phone is asked where single paths are.
    pub fn question(&self) -> (r: Message)
        ensures
            r matches Message::DeltaScan { base_token, paths } && paths@ == self@.paths && (
            self@.token is Some ==> base_token@ == self@.token->0) && (self@.token is None
                ==> base_token@.len() == 0),
    {
        let base_token = match &self.token {
            Some(token) => token.clone(),
            None => String::new(),
        };
        Message::DeltaScan { base_token, paths: self.paths.duplicate() }
    }

    /// The paths that are to be read, or to begin with.
    pub fn paths(&self) -> (r: &StringSet)
        ensures
            r@ == self@.paths,
    {
        &self.paths
    }

    /// The files of the PC and of the phone to begin with.
    pub fn into_files(self) -> (r: (Manifest, Manifest))
        ensures
            r.0@ == self@.pc,
            r.1@ == self@.android,
    {
        (self.pc, self.android)
    }

    /// Takes note of what came of a step.
    pub fn take(&mut self, state: &State, event: OpeningEvent)
        ensures
            final(self)@ == opening_after(old(self)@, state@, event@),
    {
        let step = self.step;
        match event {
            OpeningEvent::Own(dirty) => {
                if step == OpeningStep::LookAtOwn {
                    let possible = may_ask_delta(state, self.remap, self.token.is_some(), &dirty);
                    self.step = OpeningStep::ScanAll;
                    if let Some(paths) = dirty {
                        if possible {
                            self.step = OpeningStep::Ask;
                            self.paths = paths;
                        }
                    }
                }
            },
            OpeningEvent::Answer(answer) => {
                if step == OpeningStep::Ask {
                    self.step = OpeningStep::ScanAll;
                    if let Message::DeltaManifest { paths, files, metrics } = answer {
                        if delta_answer_sound(&paths, &files) {
                            self.step = OpeningStep::ReadPaths;
                            self.paths = paths;
                            self.android = files;
                        }
                    }
                }
            },
            OpeningEvent::Files(found) => {
                if step == OpeningStep::ReadPaths {
                    self.step = OpeningStep::ScanAll;
                    if let Some(pc) = found {
                        if !delta_incomplete(state, &self.paths, &pc, &self.android) {
                            self.step = OpeningStep::Begin;
                            self.pc = pc;
                        }
                    }
                }
            },
        }
    }
}

/// The beginning of a round after some events.
pub open spec fn opening_run(v: OpeningView, s: StateView, events: Seq<Sighted>) -> OpeningView
    decreases events.len(),
{
    if events.len() == 0 {
        v
    } else {
        opening_after(opening_run(v, s, events.drop_last()), s, events.last())
    }
}

/// What is certain at a step.
spec fn certain(v: OpeningView, s: StateView) -> bool {
    &&& v.step != OpeningStep::ScanAll ==> v.remap is None && s.last_sync is Some && v.token is Some
    &&& v.step == OpeningStep::Ask ==> v.paths.len() <= MAX_DELTA_PATHS && all_sound(v.paths)
    &&& v.step == OpeningStep::ReadPaths || v.step == OpeningStep::Begin ==> usable(
        v.paths,
        v.android,
    )
    &&& v.step == OpeningStep::Begin ==> !known_missing(
        s.files,
        v.paths,
        v.pc.dom(),
        v.android.dom(),
    )
}

proof fn lemma_certain(
    s: StateView,
    token: Option<Chars>,
    remap: Option<RemapPolicy>,
    events: Seq<Sighted>,
)
    ensures
        certain(opening_run(opened(s, token, remap), s, events), s),
        opening_run(opened(s, token, remap), s, events).token == token,
        opening_run(opened(s, token, remap), s, events).remap == remap,
    decreases events.len(),
{
    if events.len() > 0 {
        lemma_certain(s, token, remap, events.drop_last());
    }
}

/// Any doubt means a scan of both sides: whatever happens, a round begins with
/// single paths only if the Share has been synchronised before and was not
/// remapped, the token of the last round is still there, the paths are few and
/// sound, the phone's files are among them, and no file that was agreed on is
/// missing on a side.
pub proof fn law_doubt_means_a_full_scan(
    s: StateView,
    token: Option<Chars>,
    remap: Option<RemapPolicy>,
    events: Seq<Sighted>,
)
    requires
        opening_run(opened(s, token, remap), s, events).step == OpeningStep::Begin,
    ensures
        ({
            let v = opening_run(opened(s, token, remap), s, events);
            &&& remap is None && s.last_sync is Some && token is Some
            &&& v.paths.len() <= MAX_DELTA_PATHS && all_sound(v.paths)
            &&& v.android.dom().subset_of(v.paths) && valid_manifest(v.android)
            &&& forall|p: Chars| #[trigger]
                v.paths.contains(p) && s.files.dom().contains(p) ==> v.pc.dom().contains(p)
                    && v.android.dom().contains(p)
        }),
{
    lemma_certain(s, token, remap, events);
    let v = opening_run(opened(s, token, remap), s, events);
    assert forall|p: Chars| #[trigger]
        v.paths.contains(p) && s.files.dom().contains(p) implies v.pc.dom().contains(p)
        && v.android.dom().contains(p) by {
        if !(v.pc.dom().contains(p) && v.android.dom().contains(p)) {
            assert(known_missing(s.files, v.paths, v.pc.dom(), v.android.dom()));
        }
    }
}

/// A round that can be sure asks for single paths: the Share was synchronised
/// before and is not being remapped, both sides share a token, the changed
/// paths are known, sound and few, the phone answers for them, and no file that
/// was agreed on is missing. It then begins with just what both sides said.
pub proof fn law_certainty_needs_no_full_scan(
    s: StateView,
    token: Option<Chars>,
    dirty: Set<Chars>,
    answer: Told,
    pc: Map<Chars, EntryView>,
)
    requires
        s.last_sync is Some,
        token is Some,
        dirty.len() <= 1024,
        forall|p: Chars| #[trigger] dirty.contains(p) ==> crate::model::path_fault(p) is None,
        answer.paths.len() <= 1024,
        forall|p: Chars| #[trigger] answer.paths.contains(p) ==> crate::model::path_fault(p) is None,
        answer.files.dom().subset_of(answer.paths),
        valid_manifest(answer.files),
        forall|p: Chars| #[trigger]
            answer.paths.contains(p) && s.files.dom().contains(p) ==> pc.dom().contains(p)
                && answer.files.dom().contains(p),
    ensures
        ({
            let v0 = opened(s, token, None);
            let v1 = opening_after(v0, s, Sighted::Own(Some(dirty)));
            let v2 = opening_after(v1, s, Sighted::Answer(Some(answer)));
            let v3 = opening_after(v2, s, Sighted::Files(Some(pc)));
            &&& v0.step == OpeningStep::LookAtOwn
            &&& v1.step == OpeningStep::Ask && v1.paths == dirty
            &&& v2.step == OpeningStep::ReadPaths && v2.paths == answer.paths
            &&& v3.step == OpeningStep::Begin && v3.paths == answer.paths && v3.pc == pc
                && v3.android == answer.files
        }),
{
}

} // verus!
