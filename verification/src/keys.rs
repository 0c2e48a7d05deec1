//! The keys of the desk: which command a key gives, and on which page.

use crate::text::{join, joined, lemma_views_push, views, Chars};
use crate::labels::{action_word, short_action};
use vstd::prelude::*;

verus! {

/// A page of the desk.
#[derive(Clone, Copy, Debug, PartialEq, Eq, Structural)]
pub enum Tab {
    Shares,
    Requests,
    Recovery,
    Device,
}

/// The page with a number, from 0 on, round and round.
pub open spec fn tab_at(i: int) -> Tab {
    if i % 4 == 0 {
        Tab::Shares
    } else if i % 4 == 1 {
        Tab::Requests
    } else if i % 4 == 2 {
        Tab::Recovery
    } else {
        Tab::Device
    }
}

/// The number of a page.
pub open spec fn tab_number(tab: Tab) -> int {
    match tab {
        Tab::Shares => 0,
        Tab::Requests => 1,
        Tab::Recovery => 2,
        Tab::Device => 3,
    }
}

/// A page's title.
pub open spec fn tab_title(tab: Tab) -> Chars {
    match tab {
        Tab::Shares => "Shares"@,
        Tab::Requests => "Solicitações"@,
        Tab::Recovery => "Recovery"@,
        Tab::Device => "Dispositivo"@,
    }
}

impl Tab {
    /// The page's number, from 0 on.
    pub fn index(self) -> (r: usize)
        ensures
            r == tab_number(self),
    {
        match self {
            Tab::Shares => 0,
            Tab::Requests => 1,
            Tab::Recovery => 2,
            Tab::Device => 3,
        }
    }

    /// The page's title.
    pub fn title(self) -> (r: &'static str)
        ensures
            r@ == tab_title(self),
    {
        match self {
            Tab::Shares => "Shares",
            Tab::Requests => "Solicitações",
            Tab::Recovery => "Recovery",
            Tab::Device => "Dispositivo",
        }
    }

    /// The page behind this one; the first behind the last.
    pub fn next(self) -> (r: Tab)
        ensures
            r == tab_at(tab_number(self) + 1),
    {
        match self {
            Tab::Shares => Tab::Requests,
            Tab::Requests => Tab::Recovery,
            Tab::Recovery => Tab::Device,
            Tab::Device => Tab::Shares,
        }
    }

    /// The page before this one; the last before the first.
    pub fn previous(self) -> (r: Tab)
        ensures
            r == tab_at(tab_number(self) + 3),
    {
        match self {
            Tab::Shares => Tab::Device,
            Tab::Requests => Tab::Shares,
            Tab::Recovery => Tab::Requests,
            Tab::Device => Tab::Recovery,
        }
    }
}

/// Going on and back again leads to the same page.
pub proof fn law_tabs_go_round(tab: Tab)
    ensures
        tab_at(tab_number(tab_at(tab_number(tab) + 1)) + 3) == tab,
        tab_at(tab_number(tab)) == tab,
{
}

/// What a person can do.
#[derive(Clone, Copy, Debug, PartialEq, Eq, Structural)]
pub enum UiAction {
    AddShare,
    EditShare,
    ToggleShare,
    SyncShare,
    ReindexShare,
    RemapShare,
    EditIgnore,
    RemoveShare,
    AcceptRequest,
    RejectRequest,
    RestoreRecovery,
    KeepRecovery,
    ExportRecovery,
    CleanupRecovery,
    FilterRecovery,
    Pair,
    ShowQr,
    TestConnection,
    ToggleTrace,
    ToggleGlobalPause,
    Unlink,
    ExportProfile,
    ImportProfile,
    ExportBackup,
    ImportBackup,
    ExportDiagnostic,
    ResetInitial,
    ResetAll,
}

/// A key.
#[derive(Clone, Copy, Debug, PartialEq, Eq, Structural)]
pub enum Key {
    Char(char),
    Enter,
    Tab,
    BackTab,
    Up,
    Down,
    Esc,
    Backspace,
    Other,
}

/// A key that was pressed, with or without the shift key.
#[derive(Clone, Copy, Debug, PartialEq, Eq, Structural)]
pub struct KeyEvent {
    pub code: Key,
    pub shift: bool,
}

impl KeyEvent {
    /// A key without the shift key.
    pub fn new(code: Key) -> (r: Self)
        ensures
            r == (KeyEvent { code, shift: false }),
    {
        KeyEvent { code, shift: false }
    }
}

/// The page that an action belongs to.
pub open spec fn tab_of(action: UiAction) -> Tab {
    match action {
        UiAction::AddShare => Tab::Shares,
        UiAction::EditShare => Tab::Shares,
        UiAction::ToggleShare => Tab::Shares,
        UiAction::SyncShare => Tab::Shares,
        UiAction::ReindexShare => Tab::Shares,
        UiAction::RemapShare => Tab::Shares,
        UiAction::EditIgnore => Tab::Shares,
        UiAction::RemoveShare => Tab::Shares,
        UiAction::AcceptRequest => Tab::Requests,
        UiAction::RejectRequest => Tab::Requests,
        UiAction::RestoreRecovery => Tab::Recovery,
        UiAction::KeepRecovery => Tab::Recovery,
        UiAction::ExportRecovery => Tab::Recovery,
        UiAction::CleanupRecovery => Tab::Recovery,
        UiAction::FilterRecovery => Tab::Recovery,
        UiAction::Pair => Tab::Device,
        UiAction::ShowQr => Tab::Device,
        UiAction::TestConnection => Tab::Device,
        UiAction::ToggleTrace => Tab::Device,
        UiAction::ToggleGlobalPause => Tab::Device,
        UiAction::Unlink => Tab::Device,
        UiAction::ExportProfile => Tab::Device,
        UiAction::ImportProfile => Tab::Device,
        UiAction::ExportBackup => Tab::Device,
        UiAction::ImportBackup => Tab::Device,
        UiAction::ExportDiagnostic => Tab::Device,
        UiAction::ResetInitial => Tab::Device,
        UiAction::ResetAll => Tab::Device,
    }
}

/// The key that an action has on its page.
pub open spec fn key_of(action: UiAction) -> Key {
    match action {
        UiAction::AddShare => Key::Char('a'),
        UiAction::EditShare => Key::Char('e'),
        UiAction::ToggleShare => Key::Char(' '),
        UiAction::SyncShare => Key::Char('s'),
        UiAction::ReindexShare => Key::Char('x'),
        UiAction::RemapShare => Key::Char('m'),
        UiAction::EditIgnore => Key::Char('i'),
        UiAction::RemoveShare => Key::Char('d'),
        UiAction::AcceptRequest => Key::Char('a'),
        UiAction::RejectRequest => Key::Char('r'),
        UiAction::RestoreRecovery => Key::Enter,
        UiAction::KeepRecovery => Key::Char('k'),
        UiAction::ExportRecovery => Key::Char('e'),
        UiAction::CleanupRecovery => Key::Char('d'),
        UiAction::FilterRecovery => Key::Char('f'),
        UiAction::Pair => Key::Char('p'),
        UiAction::ShowQr => Key::Char('o'),
        UiAction::TestConnection => Key::Char('T'),
        UiAction::ToggleTrace => Key::Char('t'),
        UiAction::ToggleGlobalPause => Key::Char(' '),
        UiAction::Unlink => Key::Char('u'),
        UiAction::ExportProfile => Key::Char('x'),
        UiAction::ImportProfile => Key::Char('i'),
        UiAction::ExportBackup => Key::Char('b'),
        UiAction::ImportBackup => Key::Char('n'),
        UiAction::ExportDiagnostic => Key::Char('d'),
        UiAction::ResetInitial => Key::Char('f'),
        UiAction::ResetAll => Key::Char('X'),
    }
}

/// What an action is called.
pub open spec fn label_of(action: UiAction) -> Chars {
    match action {
        UiAction::AddShare => "Adicionar Share"@,
        UiAction::EditShare => "Editar Share"@,
        UiAction::ToggleShare => "Pausar/retomar Share"@,
        UiAction::SyncShare => "Sincronizar Share"@,
        UiAction::ReindexShare => "Reindexar Share"@,
        UiAction::RemapShare => "Remapear Android"@,
        UiAction::EditIgnore => "Editar .rowdignore"@,
        UiAction::RemoveShare => "Remover Share"@,
        UiAction::AcceptRequest => "Aceitar solicitação"@,
        UiAction::RejectRequest => "Rejeitar solicitação"@,
        UiAction::RestoreRecovery => "Restaurar versão"@,
        UiAction::KeepRecovery => "Manter versão atual"@,
        UiAction::ExportRecovery => "Exportar versão"@,
        UiAction::CleanupRecovery => "Limpar registro resolvido"@,
        UiAction::FilterRecovery => "Filtrar por Share"@,
        UiAction::Pair => "Configurar endereço"@,
        UiAction::ShowQr => "Exibir QR"@,
        UiAction::TestConnection => "Testar conexão"@,
        UiAction::ToggleTrace => "Trace de desempenho"@,
        UiAction::ToggleGlobalPause => "Pausar/retomar tudo"@,
        UiAction::Unlink => "Desvincular"@,
        UiAction::ExportProfile => "Exportar perfil"@,
        UiAction::ImportProfile => "Importar perfil"@,
        UiAction::ExportBackup => "Exportar backup"@,
        UiAction::ImportBackup => "Importar backup"@,
        UiAction::ExportDiagnostic => "Exportar diagnóstico"@,
        UiAction::ResetInitial => "Configuração inicial"@,
        UiAction::ResetAll => "Apagar dados internos"@,
    }
}

/// All actions, in the order in which they are shown.
pub open spec fn all_actions() -> Seq<UiAction> {
    seq![
        UiAction::AddShare,
        UiAction::EditShare,
        UiAction::ToggleShare,
        UiAction::SyncShare,
        UiAction::ReindexShare,
        UiAction::RemapShare,
        UiAction::EditIgnore,
        UiAction::RemoveShare,
        UiAction::AcceptRequest,
        UiAction::RejectRequest,
        UiAction::RestoreRecovery,
        UiAction::KeepRecovery,
        UiAction::ExportRecovery,
        UiAction::CleanupRecovery,
        UiAction::FilterRecovery,
        UiAction::Pair,
        UiAction::ShowQr,
        UiAction::TestConnection,
        UiAction::ToggleTrace,
        UiAction::ToggleGlobalPause,
        UiAction::Unlink,
        UiAction::ExportProfile,
        UiAction::ImportProfile,
        UiAction::ExportBackup,
        UiAction::ImportBackup,
        UiAction::ExportDiagnostic,
        UiAction::ResetInitial,
        UiAction::ResetAll,
    ]
}

/// All actions, in the order in which they are shown.
pub fn actions() -> (r: Vec<UiAction>)
    ensures
        r@ == all_actions(),
{
    let r: Vec<UiAction> = vec![
        UiAction::AddShare,
        UiAction::EditShare,
        UiAction::ToggleShare,
        UiAction::SyncShare,
        UiAction::ReindexShare,
        UiAction::RemapShare,
        UiAction::EditIgnore,
        UiAction::RemoveShare,
        UiAction::AcceptRequest,
        UiAction::RejectRequest,
        UiAction::RestoreRecovery,
        UiAction::KeepRecovery,
        UiAction::ExportRecovery,
        UiAction::CleanupRecovery,
        UiAction::FilterRecovery,
        UiAction::Pair,
        UiAction::ShowQr,
        UiAction::TestConnection,
        UiAction::ToggleTrace,
        UiAction::ToggleGlobalPause,
        UiAction::Unlink,
        UiAction::ExportProfile,
        UiAction::ImportProfile,
        UiAction::ExportBackup,
        UiAction::ImportBackup,
        UiAction::ExportDiagnostic,
        UiAction::ResetInitial,
        UiAction::ResetAll,
    ];
    assert(r@ =~= all_actions());
    r
}

impl UiAction {
    /// Whether an action changes anything, so that it waits for an operation
    /// that is under way.
    pub fn mutates(self) -> (r: bool)
        ensures
            r == changes_something(self),
    {
        match self {
            UiAction::FilterRecovery => false,
            UiAction::ShowQr => false,
            UiAction::TestConnection => false,
            UiAction::ToggleTrace => false,
            _ => true,
        }
    }

    /// The page that the action belongs to.
    pub fn tab(self) -> (r: Tab)
        ensures
            r == tab_of(self),
    {
        match self {
            UiAction::AddShare => Tab::Shares,
            UiAction::EditShare => Tab::Shares,
            UiAction::ToggleShare => Tab::Shares,
            UiAction::SyncShare => Tab::Shares,
            UiAction::ReindexShare => Tab::Shares,
            UiAction::RemapShare => Tab::Shares,
            UiAction::EditIgnore => Tab::Shares,
            UiAction::RemoveShare => Tab::Shares,
            UiAction::AcceptRequest => Tab::Requests,
            UiAction::RejectRequest => Tab::Requests,
            UiAction::RestoreRecovery => Tab::Recovery,
            UiAction::KeepRecovery => Tab::Recovery,
            UiAction::ExportRecovery => Tab::Recovery,
            UiAction::CleanupRecovery => Tab::Recovery,
            UiAction::FilterRecovery => Tab::Recovery,
            UiAction::Pair => Tab::Device,
            UiAction::ShowQr => Tab::Device,
            UiAction::TestConnection => Tab::Device,
            UiAction::ToggleTrace => Tab::Device,
            UiAction::ToggleGlobalPause => Tab::Device,
            UiAction::Unlink => Tab::Device,
            UiAction::ExportProfile => Tab::Device,
            UiAction::ImportProfile => Tab::Device,
            UiAction::ExportBackup => Tab::Device,
            UiAction::ImportBackup => Tab::Device,
            UiAction::ExportDiagnostic => Tab::Device,
            UiAction::ResetInitial => Tab::Device,
            UiAction::ResetAll => Tab::Device,
        }
    }

    /// The key that the action has on its page.
    pub fn key(self) -> (r: Key)
        ensures
            r == key_of(self),
    {
        match self {
            UiAction::AddShare => Key::Char('a'),
            UiAction::EditShare => Key::Char('e'),
            UiAction::ToggleShare => Key::Char(' '),
            UiAction::SyncShare => Key::Char('s'),
            UiAction::ReindexShare => Key::Char('x'),
            UiAction::RemapShare => Key::Char('m'),
            UiAction::EditIgnore => Key::Char('i'),
            UiAction::RemoveShare => Key::Char('d'),
            UiAction::AcceptRequest => Key::Char('a'),
            UiAction::RejectRequest => Key::Char('r'),
            UiAction::RestoreRecovery => Key::Enter,
            UiAction::KeepRecovery => Key::Char('k'),
            UiAction::ExportRecovery => Key::Char('e'),
            UiAction::CleanupRecovery => Key::Char('d'),
            UiAction::FilterRecovery => Key::Char('f'),
            UiAction::Pair => Key::Char('p'),
            UiAction::ShowQr => Key::Char('o'),
            UiAction::TestConnection => Key::Char('T'),
            UiAction::ToggleTrace => Key::Char('t'),
            UiAction::ToggleGlobalPause => Key::Char(' '),
            UiAction::Unlink => Key::Char('u'),
            UiAction::ExportProfile => Key::Char('x'),
            UiAction::ImportProfile => Key::Char('i'),
            UiAction::ExportBackup => Key::Char('b'),
            UiAction::ImportBackup => Key::Char('n'),
            UiAction::ExportDiagnostic => Key::Char('d'),
            UiAction::ResetInitial => Key::Char('f'),
            UiAction::ResetAll => Key::Char('X'),
        }
    }

    /// What the action is called.
    pub fn label(self) -> (r: &'static str)
        ensures
            r@ == label_of(self),
    {
        match self {
            UiAction::AddShare => "Adicionar Share",
            UiAction::EditShare => "Editar Share",
            UiAction::ToggleShare => "Pausar/retomar Share",
            UiAction::SyncShare => "Sincronizar Share",
            UiAction::ReindexShare => "Reindexar Share",
            UiAction::RemapShare => "Remapear Android",
            UiAction::EditIgnore => "Editar .rowdignore",
            UiAction::RemoveShare => "Remover Share",
            UiAction::AcceptRequest => "Aceitar solicitação",
            UiAction::RejectRequest => "Rejeitar solicitação",
            UiAction::RestoreRecovery => "Restaurar versão",
            UiAction::KeepRecovery => "Manter versão atual",
            UiAction::ExportRecovery => "Exportar versão",
            UiAction::CleanupRecovery => "Limpar registro resolvido",
            UiAction::FilterRecovery => "Filtrar por Share",
            UiAction::Pair => "Configurar endereço",
            UiAction::ShowQr => "Exibir QR",
            UiAction::TestConnection => "Testar conexão",
            UiAction::ToggleTrace => "Trace de desempenho",
            UiAction::ToggleGlobalPause => "Pausar/retomar tudo",
            UiAction::Unlink => "Desvincular",
            UiAction::ExportProfile => "Exportar perfil",
            UiAction::ImportProfile => "Importar perfil",
            UiAction::ExportBackup => "Exportar backup",
            UiAction::ImportBackup => "Importar backup",
            UiAction::ExportDiagnostic => "Exportar diagnóstico",
            UiAction::ResetInitial => "Configuração inicial",
            UiAction::ResetAll => "Apagar dados internos",
        }
    }
}

/// An action that changes something.
pub open spec fn changes_something(action: UiAction) -> bool {
    !(action is FilterRecovery || action is ShowQr || action is TestConnection
        || action is ToggleTrace)
}

/// What a key asks for.
#[derive(Clone, Copy, Debug, PartialEq, Eq, Structural)]
pub enum KeyCommand {
    Quit,
    Help,
    OpenTab(Tab),
    NextTab,
    PreviousTab,
    MoveUp,
    MoveDown,
    Close,
    Action(UiAction),
}

/// What a key asks for on every page.
pub open spec fn fixed_command(key: Key) -> Option<KeyCommand> {
    match key {
        Key::Char(c) => if c == 'q' {
            Some(KeyCommand::Quit)
        } else if c == '?' {
            Some(KeyCommand::Help)
        } else if c == '1' {
            Some(KeyCommand::OpenTab(Tab::Shares))
        } else if c == '2' {
            Some(KeyCommand::OpenTab(Tab::Requests))
        } else if c == '3' {
            Some(KeyCommand::OpenTab(Tab::Recovery))
        } else if c == '4' {
            Some(KeyCommand::OpenTab(Tab::Device))
        } else {
            None
        },
        Key::Tab => Some(KeyCommand::NextTab),
        Key::BackTab => Some(KeyCommand::PreviousTab),
        Key::Up => Some(KeyCommand::MoveUp),
        Key::Down => Some(KeyCommand::MoveDown),
        Key::Esc => Some(KeyCommand::Close),
        _ => None,
    }
}

/// No two actions of a page have the same key, and none has a key that means
/// something on every page: each action can be reached.
pub proof fn law_bindings_are_clear(a: UiAction, b: UiAction)
    ensures
        tab_of(a) == tab_of(b) && key_of(a) == key_of(b) ==> a == b,
        fixed_command(key_of(a)) is None,
{
}

/// Every action is shown once.
pub proof fn law_every_action_is_shown(a: UiAction)
    ensures
        all_actions().contains(a),
        all_actions().no_duplicates(),
{
    let all = all_actions();
    match a {
        UiAction::AddShare => {
            assert(all[0] == a);
        },
        UiAction::EditShare => {
            assert(all[1] == a);
        },
        UiAction::ToggleShare => {
            assert(all[2] == a);
        },
        UiAction::SyncShare => {
            assert(all[3] == a);
        },
        UiAction::ReindexShare => {
            assert(all[4] == a);
        },
        UiAction::RemapShare => {
            assert(all[5] == a);
        },
        UiAction::EditIgnore => {
            assert(all[6] == a);
        },
        UiAction::RemoveShare => {
            assert(all[7] == a);
        },
        UiAction::AcceptRequest => {
            assert(all[8] == a);
        },
        UiAction::RejectRequest => {
            assert(all[9] == a);
        },
        UiAction::RestoreRecovery => {
            assert(all[10] == a);
        },
        UiAction::KeepRecovery => {
            assert(all[11] == a);
        },
        UiAction::ExportRecovery => {
            assert(all[12] == a);
        },
        UiAction::CleanupRecovery => {
            assert(all[13] == a);
        },
        UiAction::FilterRecovery => {
            assert(all[14] == a);
        },
        UiAction::Pair => {
            assert(all[15] == a);
        },
        UiAction::ShowQr => {
            assert(all[16] == a);
        },
        UiAction::TestConnection => {
            assert(all[17] == a);
        },
        UiAction::ToggleTrace => {
            assert(all[18] == a);
        },
        UiAction::ToggleGlobalPause => {
            assert(all[19] == a);
        },
        UiAction::Unlink => {
            assert(all[20] == a);
        },
        UiAction::ExportProfile => {
            assert(all[21] == a);
        },
        UiAction::ImportProfile => {
            assert(all[22] == a);
        },
        UiAction::ExportBackup => {
            assert(all[23] == a);
        },
        UiAction::ImportBackup => {
            assert(all[24] == a);
        },
        UiAction::ExportDiagnostic => {
            assert(all[25] == a);
        },
        UiAction::ResetInitial => {
            assert(all[26] == a);
        },
        UiAction::ResetAll => {
            assert(all[27] == a);
        },
    }
}

/// The keys of the desk.
pub struct KeyMap;

impl KeyMap {
    /// What a key asks for on a page.
    pub fn resolve(key: KeyEvent, tab: Tab) -> (r: Option<KeyCommand>)
        ensures
            fixed_command(key.code) is Some ==> r == fixed_command(key.code),
            fixed_command(key.code) is None ==> match r {
                Some(KeyCommand::Action(a)) => tab_of(a) == tab && key_of(a) == key.code,
                Some(_) => false,
                None => forall|a: UiAction|
                    #![trigger tab_of(a)]
                    !(tab_of(a) == tab && key_of(a) == key.code),
            },
    {
        let fixed = fixed_of(key.code);
        if fixed.is_some() {
            return fixed;
        }
        let all = actions();
        let mut i: usize = 0;
        while i < all.len()
            invariant
                i <= all@.len(),
                all@ == all_actions(),
                forall|k: int|
                    0 <= k < i ==> !(tab_of(#[trigger] all@[k]) == tab && key_of(all@[k])
                        == key.code),
            decreases all@.len() - i,
        {
            let action = all[i];
            if action.tab() == tab && action.key() == key.code {
                return Some(KeyCommand::Action(action));
            }
            i = i + 1;
        }
        proof {
            assert forall|a: UiAction| #![trigger tab_of(a)] !(tab_of(a) == tab && key_of(a)
                == key.code) by {
                law_every_action_is_shown(a);
                let k = choose|k: int| 0 <= k < all_actions().len() && all_actions()[k] == a;
                assert(all@[k] == a);
            }
        }
        None
    }
}

fn fixed_of(key: Key) -> (r: Option<KeyCommand>)
    ensures
        r == fixed_command(key),
{
    match key {
        Key::Char(c) => {
            if c == 'q' {
                Some(KeyCommand::Quit)
            } else if c == '?' {
                Some(KeyCommand::Help)
            } else if c == '1' {
                Some(KeyCommand::OpenTab(Tab::Shares))
            } else if c == '2' {
                Some(KeyCommand::OpenTab(Tab::Requests))
            } else if c == '3' {
                Some(KeyCommand::OpenTab(Tab::Recovery))
            } else if c == '4' {
                Some(KeyCommand::OpenTab(Tab::Device))
            } else {
                None
            }
        },
        Key::Tab => Some(KeyCommand::NextTab),
        Key::BackTab => Some(KeyCommand::PreviousTab),
        Key::Up => Some(KeyCommand::MoveUp),
        Key::Down => Some(KeyCommand::MoveDown),
        Key::Esc => Some(KeyCommand::Close),
        _ => None,
    }
}

/// How a key is shown.
pub open spec fn key_shown(key: Key) -> Chars {
    match key {
        Key::Char(c) => if c == ' ' {
            "Espaço"@
        } else {
            seq![c]
        },
        _ => "Enter"@,
    }
}

/// How the key of an action is shown.
pub fn display_key(action: UiAction) -> (r: String)
    ensures
        r@ == key_shown(key_of(action)),
{
    match action.key() {
        Key::Char(c) => {
            if c == ' ' {
                "Espaço".to_string()
            } else {
                let mut r = String::new();
                r.push(c);
                assert(r@ =~= seq![c]);
                r
            }
        },
        _ => "Enter".to_string(),
    }
}

/// The actions of a page with their keys; `short` leaves out what they act
/// upon.
pub open spec fn page_keys(all: Seq<UiAction>, tab: Tab, short: bool) -> Seq<Chars>
    decreases all.len(),
{
    if all.len() == 0 {
        Seq::empty()
    } else {
        let rest = page_keys(all.drop_last(), tab, short);
        let a = all.last();
        if tab_of(a) != tab {
            rest
        } else if short {
            rest.push(key_shown(key_of(a)) + " "@ + action_word(label_of(a)))
        } else {
            rest.push(key_shown(key_of(a)) + " "@ + label_of(a))
        }
    }
}

/// The actions of a page with their keys.
pub fn page_help(tab: Tab, short: bool, between: &str) -> (r: String)
    ensures
        r@ == joined(page_keys(all_actions(), tab, short), between@),
{
    let all = actions();
    let ghost whole = all_actions();
    let mut parts: Vec<String> = Vec::new();
    let mut i: usize = 0;
    assert(views(parts@) =~= Seq::<Chars>::empty());
    assert(whole.take(0) =~= Seq::<UiAction>::empty());
    while i < all.len()
        invariant
            i <= all@.len(),
            all@ == whole,
            views(parts@) == page_keys(whole.take(i as int), tab, short),
        decreases all@.len() - i,
    {
        let action = all[i];
        proof {
            assert(whole.take(i + 1).drop_last() =~= whole.take(i as int));
            assert(whole.take(i + 1).last() == action);
        }
        if action.tab() == tab {
            let mut text = display_key(action);
            text.append(" ");
            if short {
                let word = short_action(action.label());
                text.append(word.as_str());
            } else {
                text.append(action.label());
            }
            proof {
                lemma_views_push(parts@, text);
            }
            parts.push(text);
        }
        i = i + 1;
    }
    assert(whole.take(i as int) =~= whole);
    join(&parts, between)
}

} // verus!
