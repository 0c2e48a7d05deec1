//! The desk: pages, selections, dialogs, and what a key leads to.

use crate::app::{AppSnapshot, ConnectionTest, DeviceStatus, PairingInfo, RecoveryItem, Status, StatusView};
use crate::collections::{lemma_listing_unique, lists, StringSet};
use crate::config::{owned_text, RemapPolicy, ShareRequest, SyncMode};
use crate::dialogs::{
    answer_fault, answer_texts, choices_match, dialog_done, dialog_hint, dialog_job,
    dialog_subject, dialog_title, dialog_token, done_of, form_text, form_words, hint_of, job_of,
    read_answer, subject_of, title_of, token_of, Subject, Submit,
};
use crate::keys::{
    changes_something, fixed_command, key_of, law_bindings_are_clear, tab_at, tab_number, tab_of,
    Key, KeyCommand,
    KeyEvent, KeyMap, Tab, UiAction,
};
use crate::labels::{clamp_index, clamped, mode_value, mode_word, FormError};
use crate::text::{chars_of, same, string_of, views, Chars};
use vstd::prelude::*;

verus! {

/// A dialog with its answer so far.
pub struct InputDialog {
    pub title: String,
    pub hint: String,
    pub value: String,
    pub submit: Submit,
    /// What the dialog is about.
    pub subject: Vec<String>,
    pub secret: bool,
}

/// An [`InputDialog`] as a mathematical value.
#[verifier::ext_equal]
pub struct InputView {
    pub title: Chars,
    pub hint: Chars,
    pub value: Chars,
    pub submit: Submit,
    pub subject: Seq<Chars>,
    pub secret: bool,
}

impl View for InputDialog {
    type V = InputView;

    open spec fn view(&self) -> InputView {
        InputView {
            title: self.title@,
            hint: self.hint@,
            value: self.value@,
            submit: self.submit,
            subject: views(self.subject@),
            secret: self.secret,
        }
    }
}

/// What stands before the page.
pub enum Modal {
    Help,
    Qr(PairingInfo),
    Input(InputDialog),
}

/// A [`Modal`] as a mathematical value.
#[verifier::ext_equal]
pub enum ModalView {
    Help,
    Qr(StatusView, Chars, Chars),
    Input(InputView),
}

impl View for Modal {
    type V = ModalView;

    open spec fn view(&self) -> ModalView {
        match self {
            Modal::Help => ModalView::Help,
            Modal::Qr(info) => ModalView::Qr(info.device@, info.qr@, info.qr_image@),
            Modal::Input(input) => ModalView::Input(input@),
        }
    }
}

/// An optional [`Modal`] as a mathematical value.
pub open spec fn modal_of(m: Option<Modal>) -> Option<ModalView> {
    match m {
        Some(x) => Some(x@),
        None => None,
    }
}

/// Something to be done outside of the desk.
#[derive(Clone, Copy, Debug, PartialEq, Eq, Structural)]
pub enum CallKind {
    /// What a dialog asked for.
    Answer(Submit),
    SetEnabled(bool),
    RequestSync,
    ReadIgnore,
    ReadPairing,
    TestConnection,
    TraceOn,
    TraceOff,
    SetPaused(bool),
}

/// Something to be done outside of the desk, and what is told when it is done.
pub struct Effect {
    pub kind: CallKind,
    pub args: Vec<String>,
    pub mode: Option<SyncMode>,
    pub policy: Option<RemapPolicy>,
    /// What is told when it is done.
    pub done: Option<String>,
    /// Whether what is shown has to be read again.
    pub marks: bool,
    /// Whether it goes on beside the desk.
    pub job: bool,
}

/// An [`Effect`] as a mathematical value.
#[verifier::ext_equal]
pub struct EffectView {
    pub kind: CallKind,
    pub args: Seq<Chars>,
    pub mode: Option<SyncMode>,
    pub policy: Option<RemapPolicy>,
    pub done: Option<Chars>,
    pub marks: bool,
    pub job: bool,
}

impl View for Effect {
    type V = EffectView;

    open spec fn view(&self) -> EffectView {
        EffectView {
            kind: self.kind,
            args: views(self.args@),
            mode: self.mode,
            policy: self.policy,
            done: owned_text(self.done),
            marks: self.marks,
            job: self.job,
        }
    }
}

/// An optional [`Effect`] as a mathematical value.
pub open spec fn effect_of(e: Option<Effect>) -> Option<EffectView> {
    match e {
        Some(x) => Some(x@),
        None => None,
    }
}

/// What a key leads to.
pub enum Reaction {
    Nothing,
    Quit,
    Do(Effect),
}

/// A [`Reaction`] as a mathematical value.
#[verifier::ext_equal]
pub enum ReactionView {
    Nothing,
    Quit,
    Do(EffectView),
}

impl View for Reaction {
    type V = ReactionView;

    open spec fn view(&self) -> ReactionView {
        match self {
            Reaction::Nothing => ReactionView::Nothing,
            Reaction::Quit => ReactionView::Quit,
            Reaction::Do(e) => ReactionView::Do(e@),
        }
    }
}

/// What came of an effect.
pub enum Outcome {
    Done,
    Text(String),
    Pairing(PairingInfo),
    Test(ConnectionTest),
    Failed(String),
}

/// The state of the desk.
pub struct Ui {
    pub tab: Tab,
    pub shares_index: usize,
    pub requests_index: usize,
    pub recovery_index: usize,
    pub recovery_filter: Option<String>,
    pub snapshot: AppSnapshot,
    pub modal: Option<Modal>,
    pub notice: String,
    pub connection: Option<ConnectionTest>,
    /// What goes on beside the desk.
    pub job: Option<String>,
    /// Whether what is shown has to be read again.
    pub dirty: bool,
    /// When what is shown was read, in milliseconds.
    pub last_refresh: u64,
}

/// A [`Ui`] as a mathematical value.
#[verifier::ext_equal]
pub struct UiView {
    pub tab: Tab,
    pub shares_index: int,
    pub requests_index: int,
    pub recovery_index: int,
    pub recovery_filter: Option<Chars>,
    pub snapshot: AppSnapshot,
    pub modal: Option<ModalView>,
    pub notice: Chars,
    pub connection: Option<ConnectionTest>,
    pub job: Option<Chars>,
    pub dirty: bool,
    pub last_refresh: u64,
}

impl View for Ui {
    type V = UiView;

    open spec fn view(&self) -> UiView {
        UiView {
            tab: self.tab,
            shares_index: self.shares_index as int,
            requests_index: self.requests_index as int,
            recovery_index: self.recovery_index as int,
            recovery_filter: owned_text(self.recovery_filter),
            snapshot: self.snapshot,
            modal: modal_of(self.modal),
            notice: self.notice@,
            connection: self.connection,
            job: owned_text(self.job),
            dirty: self.dirty,
            last_refresh: self.last_refresh,
        }
    }
}

/// Whether a version passes a filter.
pub open spec fn passes(item: RecoveryItem, filter: Option<Chars>) -> bool {
    match filter {
        None => true,
        Some(id) => item@.share_id == id,
    }
}

/// The versions that pass a filter.
pub open spec fn visible(items: Seq<RecoveryItem>, filter: Option<Chars>) -> Seq<RecoveryItem>
    decreases items.len(),
{
    if items.len() == 0 {
        Seq::empty()
    } else if passes(items.last(), filter) {
        visible(items.drop_last(), filter).push(items.last())
    } else {
        visible(items.drop_last(), filter)
    }
}

/// There are no more versions that pass than there are.
pub proof fn lemma_visible_len(items: Seq<RecoveryItem>, filter: Option<Chars>)
    ensures
        visible(items, filter).len() <= items.len(),
    decreases items.len(),
{
    if items.len() > 0 {
        lemma_visible_len(items.drop_last(), filter);
    }
}

/// The versions of the first items stand first.
pub proof fn lemma_visible_prefix(items: Seq<RecoveryItem>, i: int, filter: Option<Chars>)
    requires
        0 <= i <= items.len(),
    ensures
        visible(items.take(i), filter).is_prefix_of(visible(items, filter)),
    decreases items.len() - i,
{
    if i == items.len() {
        assert(items.take(i) =~= items);
    } else {
        lemma_visible_prefix(items, i + 1, filter);
        assert(items.take(i + 1).drop_last() =~= items.take(i));
    }
}

fn passes_filter(item: &RecoveryItem, filter: &Option<String>) -> (r: bool)
    ensures
        r == passes(*item, owned_text(*filter)),
{
    match filter {
        None => true,
        Some(id) => same(item.share_id.as_str(), id.as_str()),
    }
}

/// What is known at first: nothing.
pub open spec fn blank_status() -> StatusView {
    StatusView {
        configured: false,
        paired: false,
        address: ""@,
        identity: ""@,
        fingerprint: ""@,
        sync_paused: false,
        last_connection: None,
    }
}

impl AppSnapshot {
    /// Nothing is known yet.
    pub fn blank() -> (r: Self)
        ensures
            r.device@ == blank_status(),
            r.shares@.len() == 0,
            r.requests@.len() == 0,
            r.recovery@.len() == 0,
    {
        AppSnapshot {
            device: DeviceStatus {
                configured: false,
                paired: false,
                address: "".to_string(),
                identity: "".to_string(),
                fingerprint: "".to_string(),
                sync_paused: false,
                last_connection: None,
            },
            shares: Vec::new(),
            requests: Vec::new(),
            recovery: Vec::new(),
        }
    }
}

/// Whether what is shown is read again: when something changed, or after a
/// second.
pub open spec fn refresh_due(u: UiView, now: u64) -> bool {
    u.dirty || now - u.last_refresh >= 1000
}

/// Whether some version belongs to a Share.
pub open spec fn has_version(items: Seq<RecoveryItem>, id: Chars) -> bool {
    exists|i: int| 0 <= i < items.len() && (#[trigger] items[i])@.share_id == id
}

/// The desk after what is shown was read again.
pub open spec fn refreshed(u: UiView, found: Option<AppSnapshot>, now: u64) -> UiView {
    if !refresh_due(u, now) {
        u
    } else {
        let snapshot = match found {
            Some(s) => s,
            None => u.snapshot,
        };
        let filter = match u.recovery_filter {
            Some(id) => if has_version(snapshot.recovery@, id) {
                Some(id)
            } else {
                None
            },
            None => None,
        };
        UiView {
            snapshot,
            shares_index: clamped(u.shares_index, snapshot.shares@.len() as int),
            requests_index: clamped(u.requests_index, snapshot.requests@.len() as int),
            recovery_filter: filter,
            recovery_index: clamped(
                u.recovery_index,
                visible(snapshot.recovery@, filter).len() as int,
            ),
            last_refresh: now,
            dirty: false,
            ..u
        }
    }
}

/// The version that is selected, if one is.
pub open spec fn selected_version(u: UiView) -> Option<RecoveryItem> {
    let all = visible(u.snapshot.recovery@, u.recovery_filter);
    if 0 <= u.recovery_index < all.len() {
        Some(all[u.recovery_index])
    } else {
        None
    }
}

/// The next position in a list, or the one before; never beyond its ends.
pub open spec fn moved(index: int, len: int, down: bool) -> int {
    if down {
        if len == 0 {
            0
        } else if index + 1 < len {
            index + 1
        } else {
            len - 1
        }
    } else if index == 0 {
        0
    } else {
        index - 1
    }
}

/// The desk after the selection moved.
pub open spec fn selection_moved(u: UiView, down: bool) -> UiView {
    match u.tab {
        Tab::Shares => UiView {
            shares_index: moved(u.shares_index, u.snapshot.shares@.len() as int, down),
            ..u
        },
        Tab::Requests => UiView {
            requests_index: moved(u.requests_index, u.snapshot.requests@.len() as int, down),
            ..u
        },
        Tab::Recovery => UiView {
            recovery_index: moved(
                u.recovery_index,
                visible(u.snapshot.recovery@, u.recovery_filter).len() as int,
                down,
            ),
            ..u
        },
        Tab::Device => u,
    }
}

fn step(index: usize, len: usize, down: bool) -> (r: usize)
    ensures
        r == moved(index as int, len as int, down),
{
    if down {
        if len == 0 {
            0
        } else if index < len - 1 {
            index + 1
        } else {
            len - 1
        }
    } else if index == 0 {
        0
    } else {
        index - 1
    }
}

impl Ui {
    /// The desk at first.
    pub fn new(now: u64) -> (r: Self)
        ensures
            r@ == (UiView {
                tab: Tab::Shares,
                shares_index: 0,
                requests_index: 0,
                recovery_index: 0,
                recovery_filter: None,
                snapshot: r.snapshot,
                modal: None,
                notice: "Pronto. Use ? para consultar todas as ações."@,
                connection: None,
                job: None,
                dirty: true,
                last_refresh: now,
            }),
            r.snapshot.device@ == blank_status(),
            r.snapshot.shares@.len() == 0,
            r.snapshot.requests@.len() == 0,
            r.snapshot.recovery@.len() == 0,
    {
        Ui {
            tab: Tab::Shares,
            shares_index: 0,
            requests_index: 0,
            recovery_index: 0,
            recovery_filter: None,
            snapshot: AppSnapshot::blank(),
            modal: None,
            notice: "Pronto. Use ? para consultar todas as ações.".to_string(),
            connection: None,
            job: None,
            dirty: true,
            last_refresh: now,
        }
    }

    /// Whether what is shown has to be read again.
    pub fn refresh_is_due(&self, now: u64) -> (r: bool)
        ensures
            r == refresh_due(self@, now),
    {
        self.dirty || (now >= self.last_refresh && now - self.last_refresh >= 1000)
    }

    /// How many versions pass the filter.
    pub fn recovery_len(&self) -> (r: usize)
        ensures
            r == visible(self.snapshot.recovery@, owned_text(self.recovery_filter)).len(),
    {
        let ghost all = self.snapshot.recovery@;
        let ghost filter = owned_text(self.recovery_filter);
        let mut count: usize = 0;
        let mut i: usize = 0;
        assert(all.take(0) =~= Seq::<RecoveryItem>::empty());
        while i < self.snapshot.recovery.len()
            invariant
                i <= self.snapshot.recovery@.len(),
                all == self.snapshot.recovery@,
                filter == owned_text(self.recovery_filter),
                count <= i,
                count == visible(all.take(i as int), filter).len(),
            decreases self.snapshot.recovery@.len() - i,
        {
            assert(all.take(i + 1).drop_last() =~= all.take(i as int));
            assert(all.take(i + 1).last() == all[i as int]);
            if passes_filter(&self.snapshot.recovery[i], &self.recovery_filter) {
                count = count + 1;
            }
            i = i + 1;
        }
        assert(all.take(i as int) =~= all);
        count
    }

    /// Shows what was read, if it was due; what could not be read stays.
    pub fn refresh(&mut self, found: Option<AppSnapshot>, now: u64)
        ensures
            final(self)@ == refreshed(old(self)@, found, now),
    {
        if !self.refresh_is_due(now) {
            return ;
        }
        if let Some(snapshot) = found {
            self.snapshot = snapshot;
        }
        self.shares_index = clamp_index(self.shares_index, self.snapshot.shares.len());
        self.requests_index = clamp_index(self.requests_index, self.snapshot.requests.len());
        let mut stale = false;
        if let Some(id) = &self.recovery_filter {
            stale = !some_version(&self.snapshot.recovery, id.as_str());
        }
        if stale {
            self.recovery_filter = None;
        }
        let len = self.recovery_len();
        self.recovery_index = clamp_index(self.recovery_index, len);
        self.last_refresh = now;
        self.dirty = false;
        assert(self@ =~= refreshed(old(self)@, found, now));
    }

    /// The Share that is selected, if one is.
    pub fn selected_share(&self) -> (r: Option<&Status>)
        ensures
            r is Some <==> self.shares_index < self.snapshot.shares@.len(),
            r is Some ==> *r->0 == self.snapshot.shares@[self.shares_index as int],
    {
        if self.shares_index < self.snapshot.shares.len() {
            Some(&self.snapshot.shares[self.shares_index])
        } else {
            None
        }
    }

    /// The request that is selected, if one is.
    pub fn selected_request(&self) -> (r: Option<&ShareRequest>)
        ensures
            r is Some <==> self.requests_index < self.snapshot.requests@.len(),
            r is Some ==> *r->0 == self.snapshot.requests@[self.requests_index as int],
    {
        if self.requests_index < self.snapshot.requests.len() {
            Some(&self.snapshot.requests[self.requests_index])
        } else {
            None
        }
    }

    /// The version that is selected, if one is.
    pub fn selected_recovery(&self) -> (r: Option<&RecoveryItem>)
        ensures
            r is Some <==> selected_version(self@) is Some,
            r is Some ==> Some(*r->0) == selected_version(self@),
    {
        let ghost all = self.snapshot.recovery@;
        let ghost filter = owned_text(self.recovery_filter);
        let mut count: usize = 0;
        let mut i: usize = 0;
        assert(all.take(0) =~= Seq::<RecoveryItem>::empty());
        while i < self.snapshot.recovery.len()
            invariant
                i <= self.snapshot.recovery@.len(),
                all == self.snapshot.recovery@,
                filter == owned_text(self.recovery_filter),
                count <= i,
                count <= self.recovery_index,
                count == visible(all.take(i as int), filter).len(),
            decreases self.snapshot.recovery@.len() - i,
        {
            assert(all.take(i + 1).drop_last() =~= all.take(i as int));
            assert(all.take(i + 1).last() == all[i as int]);
            if passes_filter(&self.snapshot.recovery[i], &self.recovery_filter) {
                if count == self.recovery_index {
                    proof {
                        lemma_visible_prefix(all, i + 1, filter);
                        assert(visible(all.take(i + 1), filter)[count as int] == all[i as int]);
                        assert(visible(all, filter)[count as int] == all[i as int]);
                    }
                    return Some(&self.snapshot.recovery[i]);
                }
                count = count + 1;
            }
            i = i + 1;
        }
        assert(all.take(i as int) =~= all);
        None
    }

    /// Moves the selection of the page.
    pub fn move_selection(&mut self, down: bool)
        ensures
            final(self)@ == selection_moved(old(self)@, down),
    {
        let recovery_len = self.recovery_len();
        match self.tab {
            Tab::Shares => {
                self.shares_index = step(self.shares_index, self.snapshot.shares.len(), down);
            },
            Tab::Requests => {
                self.requests_index = step(self.requests_index, self.snapshot.requests.len(), down);
            },
            Tab::Recovery => {
                self.recovery_index = step(self.recovery_index, recovery_len, down);
            },
            Tab::Device => {},
        }
        assert(self@ =~= selection_moved(old(self)@, down));
    }
}

fn some_version(items: &Vec<RecoveryItem>, id: &str) -> (r: bool)
    ensures
        r == has_version(items@, id@),
{
    let mut i: usize = 0;
    while i < items.len()
        invariant
            i <= items@.len(),
            forall|k: int| 0 <= k < i ==> (#[trigger] items@[k])@.share_id != id@,
        decreases items@.len() - i,
    {
        if same(items[i].share_id.as_str(), id) {
            assert(items@[i as int]@.share_id == id@);
            return true;
        }
        i = i + 1;
    }
    false
}

/// A desk with a dialog before the page.
pub open spec fn with_input(u: UiView, input: InputView) -> UiView {
    UiView { modal: Some(ModalView::Input(input)), ..u }
}

/// The dialog for an answer that is about something with a name.
pub open spec fn input_about(
    submit: Submit,
    name: Chars,
    value: Chars,
    subject: Seq<Chars>,
) -> InputView {
    InputView {
        title: title_of(submit) + name,
        hint: hint_of(submit),
        value,
        submit,
        subject,
        secret: false,
    }
}

/// The dialog for an answer that is about nothing that is selected.
pub open spec fn input_for(submit: Submit, value: Chars) -> InputView {
    InputView {
        title: title_of(submit),
        hint: hint_of(submit),
        value,
        submit,
        subject: Seq::empty(),
        secret: false,
    }
}

/// The address that is offered for pairing.
pub open spec fn offered_address(u: UiView) -> Chars {
    if u.snapshot.device.configured {
        u.snapshot.device@.address
    } else {
        "0.0.0.0:43821"@
    }
}

/// What stands in a dialog about a Share at first.
pub open spec fn first_value(submit: Submit, share: crate::config::ShareView) -> Chars {
    match submit {
        Submit::EditShare => share.name + " | "@ + share.root + " | "@ + mode_word(share.mode),
        Submit::RemapShare => "compare"@,
        _ => ""@,
    }
}

/// The desk that asks for an answer: with nothing selected there is nothing to
/// ask.
pub open spec fn asked(u: UiView, submit: Submit) -> UiView {
    match subject_of(submit) {
        Subject::Nothing => with_input(
            u,
            input_for(
                submit,
                if submit == Submit::Pair {
                    offered_address(u)
                } else {
                    ""@
                },
            ),
        ),
        Subject::Share => if 0 <= u.shares_index < u.snapshot.shares@.len() {
            let share = u.snapshot.shares@[u.shares_index].share@;
            with_input(
                u,
                input_about(submit, share.name, first_value(submit, share), seq![share.share_id]),
            )
        } else {
            u
        },
        Subject::Request => if 0 <= u.requests_index < u.snapshot.requests@.len() {
            let request = u.snapshot.requests@[u.requests_index]@;
            with_input(u, input_about(submit, request.name, ""@, seq![request.request_id]))
        } else {
            u
        },
        Subject::Recovery => match selected_version(u) {
            Some(item) => with_input(
                u,
                input_about(submit, item@.path, ""@, seq![item@.share_id, item@.id]),
            ),
            None => u,
        },
    }
}

/// The answer that an action asks for, where it asks for one.
pub open spec fn question_of(action: UiAction) -> Option<Submit> {
    match action {
        UiAction::AddShare => Some(Submit::AddShare),
        UiAction::EditShare => Some(Submit::EditShare),
        UiAction::ReindexShare => Some(Submit::ReindexShare),
        UiAction::RemapShare => Some(Submit::RemapShare),
        UiAction::RemoveShare => Some(Submit::RemoveShare),
        UiAction::AcceptRequest => Some(Submit::AcceptRequest),
        UiAction::RejectRequest => Some(Submit::RejectRequest),
        UiAction::RestoreRecovery => Some(Submit::RestoreRecovery),
        UiAction::KeepRecovery => Some(Submit::KeepRecovery),
        UiAction::ExportRecovery => Some(Submit::ExportRecovery),
        UiAction::CleanupRecovery => Some(Submit::CleanupRecovery),
        UiAction::Pair => Some(Submit::Pair),
        UiAction::Unlink => Some(Submit::Unlink),
        UiAction::ExportProfile => Some(Submit::ExportProfile),
        UiAction::ImportProfile => Some(Submit::ImportProfile),
        UiAction::ExportBackup => Some(Submit::ExportBackupPath),
        UiAction::ImportBackup => Some(Submit::ImportBackupPath),
        UiAction::ExportDiagnostic => Some(Submit::ExportDiagnostic),
        UiAction::ResetInitial => Some(Submit::ResetInitial),
        UiAction::ResetAll => Some(Submit::ResetAll),
        _ => None,
    }
}

fn question(action: UiAction) -> (r: Option<Submit>)
    ensures
        r == question_of(action),
{
    match action {
        UiAction::AddShare => Some(Submit::AddShare),
        UiAction::EditShare => Some(Submit::EditShare),
        UiAction::ReindexShare => Some(Submit::ReindexShare),
        UiAction::RemapShare => Some(Submit::RemapShare),
        UiAction::RemoveShare => Some(Submit::RemoveShare),
        UiAction::AcceptRequest => Some(Submit::AcceptRequest),
        UiAction::RejectRequest => Some(Submit::RejectRequest),
        UiAction::RestoreRecovery => Some(Submit::RestoreRecovery),
        UiAction::KeepRecovery => Some(Submit::KeepRecovery),
        UiAction::ExportRecovery => Some(Submit::ExportRecovery),
        UiAction::CleanupRecovery => Some(Submit::CleanupRecovery),
        UiAction::Pair => Some(Submit::Pair),
        UiAction::Unlink => Some(Submit::Unlink),
        UiAction::ExportProfile => Some(Submit::ExportProfile),
        UiAction::ImportProfile => Some(Submit::ImportProfile),
        UiAction::ExportBackup => Some(Submit::ExportBackupPath),
        UiAction::ImportBackup => Some(Submit::ImportBackupPath),
        UiAction::ExportDiagnostic => Some(Submit::ExportDiagnostic),
        UiAction::ResetInitial => Some(Submit::ResetInitial),
        UiAction::ResetAll => Some(Submit::ResetAll),
        _ => None,
    }
}

/// The Shares that have versions.
pub open spec fn version_shares(items: Seq<RecoveryItem>) -> Set<Chars> {
    Set::new(|id: Chars| has_version(items, id))
}

/// A set of names in ascending order.
pub open spec fn in_order(names: Set<Chars>) -> Seq<Chars> {
    choose|s: Seq<Chars>| lists(s, names)
}

/// The filter behind another one; behind the last there is none.
pub open spec fn next_filter(order: Seq<Chars>, current: Option<Chars>) -> Option<Chars> {
    match current {
        None => if order.len() > 0 {
            Some(order[0])
        } else {
            None
        },
        Some(id) => if order.contains(id) && order.index_of(id) + 1 < order.len() {
            Some(order[order.index_of(id) + 1])
        } else {
            None
        },
    }
}

/// What a Share is called by the last of its versions.
pub open spec fn version_name(items: Seq<RecoveryItem>, id: Chars) -> Chars
    decreases items.len(),
{
    if items.len() == 0 {
        "Share"@
    } else if items.last()@.share_id == id {
        items.last()@.share_name
    } else {
        version_name(items.drop_last(), id)
    }
}

/// The desk with the next filter.
pub open spec fn filtered(u: UiView) -> UiView {
    let items = u.snapshot.recovery@;
    let filter = next_filter(in_order(version_shares(items)), u.recovery_filter);
    UiView {
        recovery_filter: filter,
        recovery_index: 0,
        notice: match filter {
            Some(id) => "Recovery filtrado por "@ + version_name(items, id) + "."@,
            None => "Recovery exibindo todos os Shares."@,
        },
        ..u
    }
}

/// Something that is done at once.
pub open spec fn at_once(
    kind: CallKind,
    args: Seq<Chars>,
    done: Option<Chars>,
    marks: bool,
) -> EffectView {
    EffectView { kind, args, mode: None, policy: None, done, marks, job: false }
}

/// What is done at once upon an action, if anything is.
pub open spec fn immediate(u: UiView, action: UiAction, tracing: bool) -> Option<EffectView> {
    let selected = 0 <= u.shares_index < u.snapshot.shares@.len();
    let share = u.snapshot.shares@[u.shares_index].share@;
    match action {
        UiAction::ToggleShare => if selected {
            Some(
                at_once(
                    CallKind::SetEnabled(!share.enabled),
                    seq![share.share_id],
                    Some(
                        if share.enabled {
                            "Share pausado; arquivos e estado foram preservados."@
                        } else {
                            "Share retomado; a próxima rodada usará a configuração atual."@
                        },
                    ),
                    true,
                ),
            )
        } else {
            None
        },
        UiAction::SyncShare => if selected {
            Some(
                at_once(
                    CallKind::RequestSync,
                    seq![share.share_id],
                    Some(share.name + " foi priorizado para a próxima conexão."@),
                    false,
                ),
            )
        } else {
            None
        },
        UiAction::EditIgnore => if selected {
            Some(at_once(CallKind::ReadIgnore, seq![share.share_id, share.name], None, false))
        } else {
            None
        },
        UiAction::ShowQr => Some(at_once(CallKind::ReadPairing, Seq::empty(), None, false)),
        UiAction::TestConnection => Some(
            at_once(
                CallKind::TestConnection,
                Seq::empty(),
                Some("Teste concluído; detalhes atualizados no painel do dispositivo."@),
                false,
            ),
        ),
        UiAction::ToggleTrace => Some(
            if tracing {
                at_once(
                    CallKind::TraceOff,
                    Seq::empty(),
                    Some("Trace de desempenho desligado."@),
                    false,
                )
            } else {
                at_once(
                    CallKind::TraceOn,
                    Seq::empty(),
                    Some("Trace de desempenho ligado."@),
                    false,
                )
            },
        ),
        UiAction::ToggleGlobalPause => Some(
            at_once(
                CallKind::SetPaused(!u.snapshot.device.sync_paused),
                Seq::empty(),
                Some(
                    if u.snapshot.device.sync_paused {
                        "Sincronização global retomada."@
                    } else {
                        "Sincronização global pausada sem apagar estado."@
                    },
                ),
                true,
            ),
        ),
        _ => None,
    }
}

/// The desk after an action began.
pub open spec fn begun(u: UiView, action: UiAction) -> UiView {
    match question_of(action) {
        Some(submit) => asked(u, submit),
        None => if action == UiAction::FilterRecovery {
            filtered(u)
        } else {
            u
        },
    }
}

fn promptly(kind: CallKind, args: Vec<String>, done: Option<String>, marks: bool) -> (r: Effect)
    ensures
        r@ == at_once(kind, views(args@), owned_text(done), marks),
{
    Effect { kind, args, mode: None, policy: None, done, marks, job: false }
}

fn two(a: &str, b: &str) -> (r: String)
    ensures
        r@ == a@ + b@,
{
    let mut r = a.to_string();
    r.append(b);
    r
}

fn filter_name(items: &Vec<RecoveryItem>, id: &str) -> (r: String)
    ensures
        r@ == version_name(items@, id@),
{
    let mut i: usize = items.len();
    assert(items@.take(i as int) =~= items@);
    while i > 0
        invariant
            i <= items@.len(),
            version_name(items@, id@) == version_name(items@.take(i as int), id@),
        decreases i,
    {
        assert(items@.take(i as int).drop_last() =~= items@.take(i - 1));
        assert(items@.take(i as int).last() == items@[i - 1]);
        if same(items[i - 1].share_id.as_str(), id) {
            return items[i - 1].share_name.clone();
        }
        i = i - 1;
    }
    "Share".to_string()
}

fn shares_with_versions(items: &Vec<RecoveryItem>) -> (r: Vec<String>)
    ensures
        views(r@) == in_order(version_shares(items@)),
        lists(views(r@), version_shares(items@)),
{
    let mut ids = StringSet::new();
    let mut i: usize = 0;
    while i < items.len()
        invariant
            i <= items@.len(),
            forall|id: Chars|
                #[trigger] ids@.contains(id) <==> has_version(items@.take(i as int), id),
        decreases items@.len() - i,
    {
        let ghost was = ids@;
        ids.insert(items[i].share_id.clone());
        proof {
            let now = items@.take(i + 1);
            assert forall|id: Chars| #[trigger] ids@.contains(id) <==> has_version(now, id) by {
                let part = items@.take(i as int);
                if has_version(part, id) {
                    let k = choose|k: int| 0 <= k < part.len() && (#[trigger] part[k])@.share_id
                        == id;
                    assert(now[k]@.share_id == id);
                }
                if id == items@[i as int]@.share_id {
                    assert(now[i as int]@.share_id == id);
                }
                if has_version(now, id) {
                    let k = choose|k: int| 0 <= k < now.len() && (#[trigger] now[k])@.share_id
                        == id;
                    if k < i {
                        assert(part[k]@.share_id == id);
                    }
                }
            }
        }
        i = i + 1;
    }
    assert(items@.take(i as int) =~= items@);
    let r = ids.to_list();
    proof {
        assert(ids@ =~= version_shares(items@));
        assert(lists(views(r@), version_shares(items@)));
        lemma_listing_unique(views(r@), in_order(version_shares(items@)), version_shares(items@));
    }
    r
}

fn filter_behind(order: &Vec<String>, current: &Option<String>) -> (r: Option<String>)
    requires
        exists|names: Set<Chars>| #[trigger] lists(views(order@), names),
    ensures
        owned_text(r) == next_filter(views(order@), owned_text(*current)),
{
    let ghost all = views(order@);
    proof {
        crate::collections::lemma_ascending_distinct(all);
    }
    match current {
        None => {
            if order.len() > 0 {
                assert(all[0] == order@[0]@);
                Some(order[0].clone())
            } else {
                None
            }
        },
        Some(id) => {
            let mut i: usize = 0;
            while i < order.len()
                invariant
                    i <= order@.len(),
                    all == views(order@),
                    all.no_duplicates(),
                    forall|k: int| 0 <= k < i ==> #[trigger] all[k] != id@,
                    owned_text(*current) == Some(id@),
                decreases order@.len() - i,
            {
                assert(all[i as int] == order@[i as int]@);
                if same(order[i].as_str(), id.as_str()) {
                    assert(all.contains(id@));
                    assert(all.index_of(id@) == i);
                    if i + 1 < order.len() {
                        assert(all[i + 1] == order@[i + 1]@);
                        return Some(order[i + 1].clone());
                    }
                    return None;
                }
                i = i + 1;
            }
            assert(!all.contains(id@));
            None
        },
    }
}

impl Ui {
    fn open_input(&mut self, submit: Submit, name: &str, value: String, subject: Vec<String>)
        ensures
            final(self)@ == with_input(
                old(self)@,
                input_about(submit, name@, value@, views(subject@)),
            ),
    {
        let title = two(dialog_title(submit), name);
        let hint = dialog_hint(submit).to_string();
        self.modal = Some(
            Modal::Input(InputDialog { title, hint, value, submit, subject, secret: false }),
        );
        assert(self@ =~= with_input(
            old(self)@,
            input_about(submit, name@, value@, views(subject@)),
        ));
    }

    /// Asks for an answer.
    pub fn ask(&mut self, submit: Submit)
        ensures
            final(self)@ == asked(old(self)@, submit),
    {
        match dialog_subject(submit) {
            Subject::Nothing => {
                let value = if submit == Submit::Pair {
                    if self.snapshot.device.configured {
                        self.snapshot.device.address.clone()
                    } else {
                        "0.0.0.0:43821".to_string()
                    }
                } else {
                    "".to_string()
                };
                let ghost shown = value@;
                let title = dialog_title(submit).to_string();
                let hint = dialog_hint(submit).to_string();
                let subject: Vec<String> = Vec::new();
                assert(views(subject@) =~= Seq::<Chars>::empty());
                self.modal = Some(
                    Modal::Input(InputDialog { title, hint, value, submit, subject, secret: false }),
                );
                assert(self@ =~= with_input(old(self)@, input_for(submit, shown)));
            },
            Subject::Share => {
                if self.shares_index < self.snapshot.shares.len() {
                    let share = &self.snapshot.shares[self.shares_index].share;
                    let value = match submit {
                        Submit::EditShare => {
                            let mut text = two(share.name.as_str(), " | ");
                            text.append(share.root.as_str());
                            text.append(" | ");
                            text.append(mode_value(share.mode));
                            text
                        },
                        Submit::RemapShare => "compare".to_string(),
                        _ => "".to_string(),
                    };
                    let name = share.name.clone();
                    let subject: Vec<String> = vec![share.share_id.clone()];
                    assert(views(subject@) =~= seq![share@.share_id]);
                    assert(value@ == first_value(submit, share@));
                    self.open_input(submit, name.as_str(), value, subject);
                }
            },
            Subject::Request => {
                if self.requests_index < self.snapshot.requests.len() {
                    let request = &self.snapshot.requests[self.requests_index];
                    let name = request.name.clone();
                    let subject: Vec<String> = vec![request.request_id.clone()];
                    assert(views(subject@) =~= seq![request@.request_id]);
                    self.open_input(submit, name.as_str(), "".to_string(), subject);
                }
            },
            Subject::Recovery => {
                let found = match self.selected_recovery() {
                    Some(item) => {
                        let subject: Vec<String> = vec![item.share_id.clone(), item.id.clone()];
                        assert(views(subject@) =~= seq![item@.share_id, item@.id]);
                        Some((item.path.clone(), subject))
                    },
                    None => None,
                };
                if let Some((path, subject)) = found {
                    self.open_input(submit, path.as_str(), "".to_string(), subject);
                }
            },
        }
    }

    fn filter_recovery(&mut self)
        ensures
            final(self)@ == filtered(old(self)@),
    {
        let order = shares_with_versions(&self.snapshot.recovery);
        let filter = filter_behind(&order, &self.recovery_filter);
        let notice = match &filter {
            Some(id) => {
                let name = filter_name(&self.snapshot.recovery, id.as_str());
                let mut text = two("Recovery filtrado por ", name.as_str());
                text.append(".");
                text
            },
            None => "Recovery exibindo todos os Shares.".to_string(),
        };
        self.recovery_filter = filter;
        self.recovery_index = 0;
        self.notice = notice;
        assert(self@ =~= filtered(old(self)@));
    }

    /// Begins an action: asks for an answer, or says what is to be done at
    /// once. `tracing` says whether the rounds are being traced.
    pub fn begin_action(&mut self, action: UiAction, tracing: bool) -> (r: Option<Effect>)
        ensures
            final(self)@ == begun(old(self)@, action),
            effect_of(r) == immediate(old(self)@, action, tracing),
    {
        if let Some(submit) = question(action) {
            self.ask(submit);
            return None;
        }
        let none: Vec<String> = Vec::new();
        assert(views(none@) =~= Seq::<Chars>::empty());
        match action {
            UiAction::ToggleShare => {
                match self.selected_share() {
                    Some(status) => {
                        let args: Vec<String> = vec![status.share.share_id.clone()];
                        assert(views(args@) =~= seq![status.share@.share_id]);
                        let done = if status.share.enabled {
                            "Share pausado; arquivos e estado foram preservados."
                        } else {
                            "Share retomado; a próxima rodada usará a configuração atual."
                        };
                        Some(
                            promptly(
                                CallKind::SetEnabled(!status.share.enabled),
                                args,
                                Some(done.to_string()),
                                true,
                            ),
                        )
                    },
                    None => None,
                }
            },
            UiAction::SyncShare => {
                match self.selected_share() {
                    Some(status) => {
                        let args: Vec<String> = vec![status.share.share_id.clone()];
                        assert(views(args@) =~= seq![status.share@.share_id]);
                        let done = two(
                            status.share.name.as_str(),
                            " foi priorizado para a próxima conexão.",
                        );
                        Some(promptly(CallKind::RequestSync, args, Some(done), false))
                    },
                    None => None,
                }
            },
            UiAction::EditIgnore => {
                match self.selected_share() {
                    Some(status) => {
                        let args: Vec<String> = vec![
                            status.share.share_id.clone(),
                            status.share.name.clone(),
                        ];
                        assert(views(args@) =~= seq![status.share@.share_id, status.share@.name]);
                        Some(promptly(CallKind::ReadIgnore, args, None, false))
                    },
                    None => None,
                }
            },
            UiAction::FilterRecovery => {
                self.filter_recovery();
                None
            },
            UiAction::ShowQr => Some(promptly(CallKind::ReadPairing, none, None, false)),
            UiAction::TestConnection => Some(
                promptly(
                    CallKind::TestConnection,
                    none,
                    Some(
                        "Teste concluído; detalhes atualizados no painel do dispositivo.".to_string(),
                    ),
                    false,
                ),
            ),
            UiAction::ToggleTrace => {
                if tracing {
                    Some(
                        promptly(
                            CallKind::TraceOff,
                            none,
                            Some("Trace de desempenho desligado.".to_string()),
                            false,
                        ),
                    )
                } else {
                    Some(
                        promptly(
                            CallKind::TraceOn,
                            none,
                            Some("Trace de desempenho ligado.".to_string()),
                            false,
                        ),
                    )
                }
            },
            UiAction::ToggleGlobalPause => {
                let paused = self.snapshot.device.sync_paused;
                let done = if paused {
                    "Sincronização global retomada."
                } else {
                    "Sincronização global pausada sem apagar estado."
                };
                Some(promptly(CallKind::SetPaused(!paused), none, Some(done.to_string()), true))
            },
            _ => None,
        }
    }
}

/// The question that follows upon an answer: a backup's place is followed by
/// its passphrase.
pub open spec fn second_of(submit: Submit) -> Option<Submit> {
    match submit {
        Submit::ExportBackupPath => Some(Submit::ExportBackupPassphrase),
        Submit::ImportBackupPath => Some(Submit::ImportBackupPassphrase),
        _ => None,
    }
}

fn second(submit: Submit) -> (r: Option<Submit>)
    ensures
        r == second_of(submit),
{
    match submit {
        Submit::ExportBackupPath => Some(Submit::ExportBackupPassphrase),
        Submit::ImportBackupPath => Some(Submit::ImportBackupPassphrase),
        _ => None,
    }
}

/// Why an answer is not taken, if it is not.
pub open spec fn submit_fault(u: UiView, submit: Submit, value: Chars) -> Option<FormError> {
    match answer_fault(submit, value) {
        Some(e) => Some(e),
        None => if job_of(submit) is Some && u.job is Some {
            Some(FormError::Busy)
        } else {
            None
        },
    }
}

/// The desk after an answer was taken.
pub open spec fn submitted(
    u: UiView,
    submit: Submit,
    subject: Seq<Chars>,
    value: Chars,
) -> UiView {
    match second_of(submit) {
        Some(next) => UiView {
            modal: Some(
                ModalView::Input(
                    InputView {
                        title: title_of(next),
                        hint: hint_of(next),
                        value: ""@,
                        submit: next,
                        subject: subject + answer_texts(submit, value),
                        secret: true,
                    },
                ),
            ),
            dirty: true,
            ..u
        },
        None => UiView {
            job: match job_of(submit) {
                Some(label) => Some(label),
                None => u.job,
            },
            dirty: true,
            ..u
        },
    }
}

/// What is done upon an answer.
pub open spec fn submit_effect(
    e: Option<EffectView>,
    submit: Submit,
    subject: Seq<Chars>,
    value: Chars,
) -> bool {
    match second_of(submit) {
        Some(_) => e is None,
        None => {
            &&& e is Some
            &&& e->0.kind == CallKind::Answer(submit)
            &&& e->0.args == subject + answer_texts(submit, value)
            &&& choices_match(submit, value, e->0.mode, e->0.policy)
            &&& e->0.done == Some(done_of(submit))
            &&& e->0.marks
            &&& e->0.job == (job_of(submit) is Some)
        },
    }
}

/// What is told of something that was not done.
pub open spec fn not_done(reason: Chars) -> Chars {
    "Ação não concluída: "@ + reason
}

/// The desk after something was done, or was not.
pub open spec fn settled(u: UiView, e: EffectView, o: Outcome) -> UiView {
    let told = UiView {
        notice: match e.done {
            Some(text) => text,
            None => u.notice,
        },
        dirty: u.dirty || e.marks,
        job: if e.job {
            None
        } else {
            u.job
        },
        ..u
    };
    match o {
        Outcome::Done => told,
        Outcome::Text(text) => with_input(
            told,
            input_about(
                Submit::Ignore,
                if e.args.len() > 1 {
                    e.args[1]
                } else {
                    ""@
                },
                text@,
                e.args.take(
                    if e.args.len() > 1 {
                        1
                    } else {
                        e.args.len() as int
                    },
                ),
            ),
        ),
        Outcome::Pairing(info) => UiView { modal: Some(Modal::Qr(info)@), ..told },
        Outcome::Test(test) => UiView { connection: Some(test), ..told },
        Outcome::Failed(reason) => if e.kind == CallKind::ReadPairing {
            asked(u, Submit::Pair)
        } else if e.job || e.kind is Answer {
            UiView { notice: not_done(reason@), dirty: u.dirty || e.marks, job: told.job, ..u }
        } else {
            u
        },
    }
}

/// Whether a failure ends the program: one that nobody was asked about does,
/// but for a QR code that is not there yet.
pub open spec fn goes_on(e: EffectView, o: Outcome) -> bool {
    !(o is Failed) || e.job || e.kind is Answer || e.kind == CallKind::ReadPairing
}

/// What a key asks for on a page.
pub open spec fn command_for(key: Key, tab: Tab) -> Option<KeyCommand> {
    if fixed_command(key) is Some {
        fixed_command(key)
    } else if exists|a: UiAction| #[trigger] tab_of(a) == tab && key_of(a) == key {
        Some(
            KeyCommand::Action(choose|a: UiAction| #[trigger] tab_of(a) == tab && key_of(a) == key),
        )
    } else {
        None
    }
}

/// The desk after a key, where nothing stands before the page.
pub open spec fn page_key(u: UiView, key: KeyEvent, tracing: bool) -> (UiView, ReactionView) {
    match command_for(key.code, u.tab) {
        None => (u, ReactionView::Nothing),
        Some(command) => match command {
            KeyCommand::Quit => (u, ReactionView::Quit),
            KeyCommand::Help => (
                UiView { modal: Some(ModalView::Help), ..u },
                ReactionView::Nothing,
            ),
            KeyCommand::OpenTab(tab) => (UiView { tab, ..u }, ReactionView::Nothing),
            KeyCommand::NextTab => (
                UiView { tab: tab_at(tab_number(u.tab) + 1), ..u },
                ReactionView::Nothing,
            ),
            KeyCommand::PreviousTab => (
                UiView { tab: tab_at(tab_number(u.tab) + 3), ..u },
                ReactionView::Nothing,
            ),
            KeyCommand::MoveUp => (selection_moved(u, false), ReactionView::Nothing),
            KeyCommand::MoveDown => (selection_moved(u, true), ReactionView::Nothing),
            KeyCommand::Close => (u, ReactionView::Nothing),
            KeyCommand::Action(action) => if u.job is Some && changes_something(action) {
                (
                    UiView {
                        notice:
                            "Aguarde a operação em andamento; navegação e ajuda continuam disponíveis."@,
                        ..u
                    },
                    ReactionView::Nothing,
                )
            } else {
                (
                    begun(u, action),
                    match immediate(u, action, tracing) {
                        Some(e) => ReactionView::Do(e),
                        None => ReactionView::Nothing,
                    },
                )
            },
        },
    }
}

/// An answer after a key that writes or takes back.
pub open spec fn edited(value: Chars, key: KeyEvent) -> Chars {
    match key.code {
        Key::Backspace => if value.len() == 0 {
            value
        } else {
            value.drop_last()
        },
        Key::Enter => value.push('\n'),
        Key::Char(c) => value.push(c),
        _ => value,
    }
}

/// Whether a key ends a dialog with its answer.
pub open spec fn confirms(key: KeyEvent) -> bool {
    key.code == Key::Enter && !key.shift
}

/// The desk after a key, where something stands before the page.
pub open spec fn modal_key(u: UiView, key: KeyEvent) -> UiView {
    let free = UiView { modal: None, ..u };
    if key.code == Key::Esc {
        free
    } else {
        match u.modal {
            Some(ModalView::Input(input)) => if confirms(key) {
                match submit_fault(u, input.submit, input.value) {
                    Some(e) => UiView {
                        notice: not_done(form_words(e, token_of(input.submit))),
                        dirty: true,
                        ..free
                    },
                    None => submitted(free, input.submit, input.subject, input.value),
                }
            } else {
                with_input(u, InputView { value: edited(input.value, key), ..input })
            },
            _ => u,
        }
    }
}

/// What a key leads to, where something stands before the page.
pub open spec fn modal_reaction(u: UiView, key: KeyEvent, r: ReactionView) -> bool {
    match u.modal {
        Some(ModalView::Input(input)) => if confirms(key) && submit_fault(
            u,
            input.submit,
            input.value,
        ) is None && second_of(input.submit) is None {
            r is Do && submit_effect(Some(r->Do_0), input.submit, input.subject, input.value)
        } else {
            r == ReactionView::Nothing
        },
        _ => r == ReactionView::Nothing,
    }
}

/// While something goes on beside the desk, no key leads to anything else that
/// changes what is kept.
pub proof fn law_one_job_at_a_time(u: UiView, key: KeyEvent, tracing: bool)
    requires
        u.job is Some,
    ensures
        page_key(u, key, tracing).0.job == u.job,
        match page_key(u, key, tracing).1 {
            ReactionView::Do(e) => !e.job && !(e.kind is Answer || e.kind is SetEnabled
                || e.kind is SetPaused || e.kind is RequestSync || e.kind is ReadIgnore),
            _ => true,
        },
        modal_key(u, key).job == u.job,
{
}

/// Leaving a dialog changes nothing but that it is gone.
pub proof fn law_leaving_changes_nothing(u: UiView, key: KeyEvent, r: ReactionView)
    requires
        key.code == Key::Esc,
        modal_reaction(u, key, r),
    ensures
        modal_key(u, key) == (UiView { modal: None, ..u }),
        r == ReactionView::Nothing,
{
}

/// An answer without the word that was asked for leads to nothing.
pub proof fn law_no_token_no_effect(u: UiView, key: KeyEvent, r: ReactionView)
    requires
        u.modal is Some,
        u.modal->0 is Input,
        crate::dialogs::reading_of(u.modal->0->Input_0.submit) == crate::dialogs::Reading::Token,
        crate::text::trimmed(u.modal->0->Input_0.value) != token_of(u.modal->0->Input_0.submit),
        modal_reaction(u, key, r),
    ensures
        r == ReactionView::Nothing,
        modal_key(u, key).job == u.job,
{
}

impl Ui {
    /// Takes the answer of a dialog.
    pub fn submit(&mut self, submit: Submit, subject: &Vec<String>, value: &str) -> (r: Result<
        Option<Effect>,
        FormError,
    >)
        ensures
            match r {
                Ok(e) => submit_fault(old(self)@, submit, value@) is None && final(self)@
                    == submitted(old(self)@, submit, views(subject@), value@) && submit_effect(
                    effect_of(e),
                    submit,
                    views(subject@),
                    value@,
                ),
                Err(e) => submit_fault(old(self)@, submit, value@) == Some(e) && final(self)@
                    == old(self)@,
            },
    {
        let answer = match read_answer(submit, subject, value) {
            Ok(answer) => answer,
            Err(e) => {
                return Err(e);
            },
        };
        let label = dialog_job(submit);
        if label.is_some() && self.job.is_some() {
            return Err(FormError::Busy);
        }
        let ghost texts = views(subject@) + answer_texts(submit, value@);
        if let Some(next) = second(submit) {
            let title = dialog_title(next).to_string();
            let hint = dialog_hint(next).to_string();
            self.modal = Some(
                Modal::Input(
                    InputDialog {
                        title,
                        hint,
                        value: "".to_string(),
                        submit: next,
                        subject: answer.args,
                        secret: true,
                    },
                ),
            );
            self.dirty = true;
            assert(self@ =~= submitted(old(self)@, submit, views(subject@), value@));
            return Ok(None);
        }
        let job = match label {
            Some(text) => {
                self.job = Some(text.to_string());
                true
            },
            None => false,
        };
        self.dirty = true;
        assert(self@ =~= submitted(old(self)@, submit, views(subject@), value@));
        Ok(
            Some(
                Effect {
                    kind: CallKind::Answer(submit),
                    args: answer.args,
                    mode: answer.mode,
                    policy: answer.policy,
                    done: Some(dialog_done(submit).to_string()),
                    marks: true,
                    job,
                },
            ),
        )
    }

    /// A message from the side of the desk.
    pub fn tell(&mut self, message: String)
        ensures
            final(self)@ == (UiView { notice: message@, ..old(self)@ }),
    {
        self.notice = message;
        assert(self@ =~= UiView { notice: message@, ..old(self)@ });
    }

    /// Something was done, or was not; the result says whether the program
    /// goes on.
    pub fn settle(&mut self, effect: &Effect, outcome: Outcome) -> (r: bool)
        ensures
            final(self)@ == settled(old(self)@, effect@, outcome),
            r == goes_on(effect@, outcome),
    {
        if let Outcome::Failed(reason) = &outcome {
            if effect.kind == CallKind::ReadPairing {
                self.ask(Submit::Pair);
                return true;
            }
            let answer = match effect.kind {
                CallKind::Answer(_) => true,
                _ => false,
            };
            if effect.job || answer {
                self.notice = two("Ação não concluída: ", reason.as_str());
                self.dirty = self.dirty || effect.marks;
                if effect.job {
                    self.job = None;
                }
                assert(self@ =~= settled(old(self)@, effect@, outcome));
                return true;
            }
            return false;
        }
        if let Some(text) = &effect.done {
            self.notice = text.clone();
        }
        self.dirty = self.dirty || effect.marks;
        if effect.job {
            self.job = None;
        }
        match outcome {
            Outcome::Text(text) => {
                let mut name = "".to_string();
                let mut subject: Vec<String> = Vec::new();
                if effect.args.len() > 1 {
                    name = effect.args[1].clone();
                }
                if effect.args.len() > 0 {
                    subject.push(effect.args[0].clone());
                }
                proof {
                    let all = views(effect.args@);
                    let n: int = if all.len() > 1 {
                        1
                    } else {
                        all.len() as int
                    };
                    assert(views(subject@) =~= all.take(n));
                }
                self.open_input(Submit::Ignore, name.as_str(), text, subject);
            },
            Outcome::Pairing(info) => {
                self.modal = Some(Modal::Qr(info));
            },
            Outcome::Test(test) => {
                self.connection = Some(test);
            },
            _ => {},
        }
        assert(self@ =~= settled(old(self)@, effect@, outcome));
        true
    }

    /// Whether the server should be started.
    pub fn wants_server(&self, running: bool) -> (r: bool)
        ensures
            r == (!running && self@.snapshot.device.configured),
    {
        !running && self.snapshot.device.configured
    }

    fn handle_modal_key(&mut self, key: KeyEvent) -> (r: Reaction)
        requires
            old(self).modal is Some,
        ensures
            final(self)@ == modal_key(old(self)@, key),
            modal_reaction(old(self)@, key, r@),
    {
        let mut modal: Option<Modal> = None;
        std::mem::swap(&mut modal, &mut self.modal);
        if key.code == Key::Esc {
            assert(self@ =~= modal_key(old(self)@, key));
            return Reaction::Nothing;
        }
        match modal {
            Some(Modal::Input(input)) => {
                if key.code == Key::Enter && !key.shift {
                    let ghost free = self@;
                    assert(free =~= UiView { modal: None, ..old(self)@ });
                    match self.submit(input.submit, &input.subject, input.value.as_str()) {
                        Ok(Some(effect)) => {
                            return Reaction::Do(effect);
                        },
                        Ok(None) => {
                            return Reaction::Nothing;
                        },
                        Err(e) => {
                            let text = form_text(e, dialog_token(input.submit));
                            self.notice = two("Ação não concluída: ", text.as_str());
                            self.dirty = true;
                            assert(self@ =~= modal_key(old(self)@, key));
                            return Reaction::Nothing;
                        },
                    }
                }
                let mut value = input.value;
                let ghost was = value@;
                match key.code {
                    Key::Backspace => {
                        let chars = chars_of(value.as_str());
                        let size: usize = chars.len();
                        if size > 0 {
                            value = string_of(&chars, 0, size - 1);
                            assert(value@ =~= was.drop_last());
                        }
                    },
                    Key::Enter => {
                        value.push('\n');
                    },
                    Key::Char(c) => {
                        value.push(c);
                    },
                    _ => {},
                }
                assert(value@ == edited(was, key));
                self.modal = Some(
                    Modal::Input(
                        InputDialog {
                            title: input.title,
                            hint: input.hint,
                            value,
                            submit: input.submit,
                            subject: input.subject,
                            secret: input.secret,
                        },
                    ),
                );
            },
            other => {
                self.modal = other;
            },
        }
        assert(self@ =~= modal_key(old(self)@, key));
        Reaction::Nothing
    }

    /// A key was pressed.
    pub fn handle_key(&mut self, key: KeyEvent, tracing: bool) -> (r: Reaction)
        ensures
            old(self).modal is Some ==> final(self)@ == modal_key(old(self)@, key)
                && modal_reaction(old(self)@, key, r@),
            old(self).modal is None ==> (final(self)@, r@) == page_key(old(self)@, key, tracing),
    {
        if self.modal.is_some() {
            return self.handle_modal_key(key);
        }
        let found = KeyMap::resolve(key, self.tab);
        proof {
            lemma_command(key.code, self.tab, found);
        }
        let command = match found {
            Some(command) => command,
            None => {
                return Reaction::Nothing;
            },
        };
        match command {
            KeyCommand::Quit => {
                return Reaction::Quit;
            },
            KeyCommand::Help => {
                self.modal = Some(Modal::Help);
            },
            KeyCommand::OpenTab(tab) => {
                self.tab = tab;
            },
            KeyCommand::NextTab => {
                self.tab = self.tab.next();
            },
            KeyCommand::PreviousTab => {
                self.tab = self.tab.previous();
            },
            KeyCommand::MoveUp => {
                self.move_selection(false);
            },
            KeyCommand::MoveDown => {
                self.move_selection(true);
            },
            KeyCommand::Close => {},
            KeyCommand::Action(action) => {
                if self.job.is_some() && action.mutates() {
                    self.notice =
                    "Aguarde a operação em andamento; navegação e ajuda continuam disponíveis.".to_string();
                } else {
                    match self.begin_action(action, tracing) {
                        Some(effect) => {
                            return Reaction::Do(effect);
                        },
                        None => {
                            return Reaction::Nothing;
                        },
                    }
                }
            },
        }
        assert(self@ =~= page_key(old(self)@, key, tracing).0);
        Reaction::Nothing
    }
}

proof fn lemma_command(key: Key, tab: Tab, found: Option<KeyCommand>)
    requires
        fixed_command(key) is Some ==> found == fixed_command(key),
        fixed_command(key) is None ==> match found {
            Some(KeyCommand::Action(a)) => tab_of(a) == tab && key_of(a) == key,
            Some(_) => false,
            None => forall|a: UiAction|
                #![trigger tab_of(a)]
                !(tab_of(a) == tab && key_of(a) == key),
        },
    ensures
        found == command_for(key, tab),
{
    if fixed_command(key) is None {
        if let Some(KeyCommand::Action(a)) = found {
            let b = choose|b: UiAction| #[trigger] tab_of(b) == tab && key_of(b) == key;
            law_bindings_are_clear(a, b);
        }
    }
}

/// A filter shows the versions of its Share, and no filter shows all, in their
/// order.
pub proof fn law_filter_shows_its_share(a: Seq<RecoveryItem>, b: Seq<RecoveryItem>, s: RecoveryItem, filter: Option<Chars>)
    ensures
        visible(a + b, filter) == visible(a, filter) + visible(b, filter),
        visible(seq![s], filter) == if filter is None || filter == Some(s@.share_id) {
            seq![s]
        } else {
            Seq::empty()
        },
        visible(Seq::empty(), filter) == Seq::<RecoveryItem>::empty(),
    decreases b.len(),
{
    let one = seq![s];
    assert(one.drop_last() =~= Seq::empty());
    assert(visible(one.drop_last(), filter) == Seq::<RecoveryItem>::empty());
    assert(visible(one, filter) =~= if filter is None || filter == Some(s@.share_id) {
        seq![s]
    } else {
        Seq::empty()
    });
    if b.len() == 0 {
        assert(a + b =~= a);
        assert(visible(a + b, filter) =~= visible(a, filter) + visible(b, filter));
    } else {
        law_filter_shows_its_share(a, b.drop_last(), s, filter);
        assert((a + b).drop_last() =~= a + b.drop_last());
        assert((a + b).last() == b.last());
        assert(visible(a + b, filter) =~= visible(a, filter) + visible(b, filter));
    }
}

/// Every action that asks a question asks one of its own.
pub proof fn law_every_action_asks_its_own_question(a: UiAction, b: UiAction)
    requires
        question_of(a) is Some,
        question_of(a) == question_of(b),
    ensures
        a == b,
{
}

/// What is done at once is done to the selected Share, and turns what it is
/// about: a Share that is on is paused and one that is paused goes on, and so
/// with the whole PC and the trace.
pub proof fn law_toggles_turn_what_is_selected(u: UiView, tracing: bool)
    requires
        0 <= u.shares_index < u.snapshot.shares@.len(),
    ensures
        ({
            let share = u.snapshot.shares@[u.shares_index].share@;
            let toggle = immediate(u, UiAction::ToggleShare, tracing);
            let sync = immediate(u, UiAction::SyncShare, tracing);
            let pause = immediate(u, UiAction::ToggleGlobalPause, tracing);
            let trace = immediate(u, UiAction::ToggleTrace, tracing);
            &&& toggle is Some && toggle->0.args == seq![share.share_id] && toggle->0.kind
                == CallKind::SetEnabled(!share.enabled) && toggle->0.marks
            &&& sync is Some && sync->0.args == seq![share.share_id] && sync->0.kind
                == CallKind::RequestSync
            &&& pause is Some && pause->0.kind == CallKind::SetPaused(
                !u.snapshot.device.sync_paused,
            ) && pause->0.marks
            &&& trace is Some && trace->0.kind == (if tracing {
                CallKind::TraceOff
            } else {
                CallKind::TraceOn
            })
        }),
{
}

/// A question is about what is selected, names it, and keeps its identity for
/// the answer; with nothing selected, none is asked.
pub proof fn law_questions_are_about_the_selection(u: UiView, submit: Submit)
    ensures
        subject_of(submit) is Share && !(0 <= u.shares_index < u.snapshot.shares@.len()) ==> asked(
            u,
            submit,
        ) == u,
        subject_of(submit) is Request && !(0 <= u.requests_index < u.snapshot.requests@.len())
            ==> asked(u, submit) == u,
        subject_of(submit) is Share && 0 <= u.shares_index < u.snapshot.shares@.len() ==> {
            let share = u.snapshot.shares@[u.shares_index].share@;
            asked(u, submit).modal matches Some(ModalView::Input(input)) && input.submit == submit
                && input.subject == seq![share.share_id] && !input.secret
        },
        subject_of(submit) is Request && 0 <= u.requests_index < u.snapshot.requests@.len() ==> {
            let request = u.snapshot.requests@[u.requests_index]@;
            asked(u, submit).modal matches Some(ModalView::Input(input)) && input.submit == submit
                && input.subject == seq![request.request_id] && !input.secret
        },
        subject_of(submit) is Nothing ==> {
            asked(u, submit).modal matches Some(ModalView::Input(input)) && input.submit == submit
                && input.subject.len() == 0
        },
        asked(u, submit).snapshot == u.snapshot && asked(u, submit).job == u.job,
{
}

/// The filter goes through the Shares in their order, and then shows all.
pub proof fn law_filter_goes_round(order: Seq<Chars>, i: int)
    requires
        order.no_duplicates(),
        0 <= i < order.len(),
    ensures
        next_filter(order, None) == Some(order[0]),
        i + 1 < order.len() ==> next_filter(order, Some(order[i])) == Some(order[i + 1]),
        i + 1 == order.len() ==> next_filter(order, Some(order[i])) is None,
{
    assert(order.contains(order[i]));
    let k = order.index_of(order[i]);
    assert(0 <= k < order.len() && order[k] == order[i]);
    assert(k == i);
}

/// A refresh takes the new findings, at most once in a second unless something
/// changed; whatever is selected afterwards is there, and a filter stays only
/// while its Share has versions.
pub proof fn law_refresh_keeps_selections_inside(u: UiView, found: AppSnapshot, now: u64)
    requires
        0 <= u.shares_index,
        0 <= u.requests_index,
        0 <= u.recovery_index,
    ensures
        ({
            let t = refreshed(u, Some(found), now);
            &&& !u.dirty && now - u.last_refresh < 1000 ==> t == u
            &&& u.dirty || now - u.last_refresh >= 1000 ==> {
                &&& t.snapshot == found && t.last_refresh == now && !t.dirty
                &&& found.shares@.len() > 0 ==> 0 <= t.shares_index < found.shares@.len()
                &&& u.shares_index < found.shares@.len() ==> t.shares_index == u.shares_index
                &&& found.requests@.len() > 0 ==> 0 <= t.requests_index < found.requests@.len()
                &&& u.requests_index < found.requests@.len() ==> t.requests_index
                    == u.requests_index
                &&& t.recovery_filter matches Some(id) ==> u.recovery_filter == Some(id) && exists|
                    i: int,
                |
                    0 <= i < found.recovery@.len() && (#[trigger] found.recovery@[i])@.share_id == id
                &&& t.modal == u.modal && t.job == u.job && t.tab == u.tab
            }
        }),
{
}

/// The selection moves by one, and stops at the ends.
pub proof fn law_selection_moves_by_one(index: int, len: int)
    requires
        0 <= index < len,
    ensures
        index + 1 < len ==> moved(index, len, true) == index + 1,
        index + 1 == len ==> moved(index, len, true) == index,
        index > 0 ==> moved(index, len, false) == index - 1,
        index == 0 ==> moved(index, len, false) == 0,
{
}

/// A backup is asked for in two steps: first its file, then its passphrase,
/// which is never shown; the file is kept for the second step, and nothing is
/// done before it. An import asks for the passphrase of an import, an export
/// for that of an export, and nothing else asks for one.
pub proof fn law_backups_ask_for_a_passphrase(
    u: UiView,
    submit: Submit,
    subject: Seq<Chars>,
    value: Chars,
    e: Option<EffectView>,
)
    requires
        submit_effect(e, submit, subject, value),
    ensures
        submit == Submit::ExportBackupPath || submit == Submit::ImportBackupPath ==> {
            let t = submitted(u, submit, subject, value);
            &&& e is None
            &&& t.modal matches Some(ModalView::Input(input)) && input.secret && input.value == ""@
                && input.submit == (if submit == Submit::ExportBackupPath {
                Submit::ExportBackupPassphrase
            } else {
                Submit::ImportBackupPassphrase
            }) && input.subject == subject + answer_texts(submit, value)
            &&& t.job == u.job
        },
        submit != Submit::ExportBackupPath && submit != Submit::ImportBackupPath ==> {
            &&& e is Some
            &&& e->0.kind == CallKind::Answer(submit)
            &&& subject.is_prefix_of(e->0.args)
            &&& submitted(u, submit, subject, value).modal == u.modal
        },
{
    let texts = answer_texts(submit, value);
    assert((subject + texts).subrange(0, subject.len() as int) =~= subject);
}

} // verus!
