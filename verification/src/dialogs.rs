//! The dialogs of the desk: what each asks, and what is made of the answer.

use crate::config::{RemapPolicy, SyncMode};
use crate::labels::{
    form_fault, form_fields, mode_word, parse_policy, policy_word, require_token, required,
    share_form, FormError,
};
use crate::text::{copy_strings, lemma_views_push, trim, trimmed, views, Chars};
use vstd::prelude::*;

verus! {

/// What an answer is for.
#[derive(Clone, Copy, Debug, PartialEq, Eq, Structural)]
pub enum Submit {
    Pair,
    AddShare,
    EditShare,
    RemoveShare,
    AcceptRequest,
    RejectRequest,
    ReindexShare,
    RemapShare,
    Ignore,
    RestoreRecovery,
    KeepRecovery,
    ExportRecovery,
    CleanupRecovery,
    Unlink,
    ExportProfile,
    ImportProfile,
    ExportBackupPath,
    ExportBackupPassphrase,
    ImportBackupPath,
    ImportBackupPassphrase,
    ExportDiagnostic,
    ResetInitial,
    ResetAll,
}

/// What a dialog is about.
#[derive(Clone, Copy, Debug, PartialEq, Eq, Structural)]
pub enum Subject {
    /// Nothing that is selected.
    Nothing,
    Share,
    Request,
    Recovery,
}

/// The title of a dialog, up to the name of what it is about.
pub open spec fn title_of(submit: Submit) -> Chars {
    match submit {
        Submit::Pair => "Endereço publicado do PC"@,
        Submit::AddShare => "Novo Share"@,
        Submit::EditShare => "Editar · "@,
        Submit::RemoveShare => "Remover · "@,
        Submit::AcceptRequest => "Aceitar · "@,
        Submit::RejectRequest => "Rejeitar · "@,
        Submit::ReindexShare => "Reindexar · "@,
        Submit::RemapShare => "Remapear Android · "@,
        Submit::Ignore => ".rowdignore · "@,
        Submit::RestoreRecovery => "Recovery · "@,
        Submit::KeepRecovery => "Recovery · "@,
        Submit::ExportRecovery => "Exportar recovery · "@,
        Submit::CleanupRecovery => "Recovery · "@,
        Submit::Unlink => "Desvincular Android"@,
        Submit::ExportProfile => "Exportar perfil sem segredos"@,
        Submit::ImportProfile => "Importar perfil sem segredos"@,
        Submit::ExportBackupPath => "Exportar backup completo criptografado"@,
        Submit::ExportBackupPassphrase => "Senha do backup"@,
        Submit::ImportBackupPath => "Importar backup completo criptografado"@,
        Submit::ImportBackupPassphrase => "Senha do backup"@,
        Submit::ExportDiagnostic => "Exportar diagnóstico sanitizado"@,
        Submit::ResetInitial => "Restaurar configuração inicial"@,
        Submit::ResetAll => "Apagar dados internos do Rowd"@,
    }
}

/// The title of a dialog, up to the name of what it is about.
pub fn dialog_title(submit: Submit) -> (r: &'static str)
    ensures
        r@ == title_of(submit),
{
    match submit {
        Submit::Pair => "Endereço publicado do PC",
        Submit::AddShare => "Novo Share",
        Submit::EditShare => "Editar · ",
        Submit::RemoveShare => "Remover · ",
        Submit::AcceptRequest => "Aceitar · ",
        Submit::RejectRequest => "Rejeitar · ",
        Submit::ReindexShare => "Reindexar · ",
        Submit::RemapShare => "Remapear Android · ",
        Submit::Ignore => ".rowdignore · ",
        Submit::RestoreRecovery => "Recovery · ",
        Submit::KeepRecovery => "Recovery · ",
        Submit::ExportRecovery => "Exportar recovery · ",
        Submit::CleanupRecovery => "Recovery · ",
        Submit::Unlink => "Desvincular Android",
        Submit::ExportProfile => "Exportar perfil sem segredos",
        Submit::ImportProfile => "Importar perfil sem segredos",
        Submit::ExportBackupPath => "Exportar backup completo criptografado",
        Submit::ExportBackupPassphrase => "Senha do backup",
        Submit::ImportBackupPath => "Importar backup completo criptografado",
        Submit::ImportBackupPassphrase => "Senha do backup",
        Submit::ExportDiagnostic => "Exportar diagnóstico sanitizado",
        Submit::ResetInitial => "Restaurar configuração inicial",
        Submit::ResetAll => "Apagar dados internos do Rowd",
    }
}

/// What a dialog asks for.
pub open spec fn hint_of(submit: Submit) -> Chars {
    match submit {
        Submit::Pair => "Use IP:porta alcançável pelo Android; 0.0.0.0 descobre o IP local."@,
        Submit::AddShare => "nome | pasta absoluta no PC | bidirectional/to_android/to_pc"@,
        Submit::EditShare => "nome | pasta absoluta no PC | bidirectional/to_android/to_pc"@,
        Submit::RemoveShare => "Remove a rota, preservando os arquivos. Digite REMOVER."@,
        Submit::AcceptRequest => "Pasta absoluta no PC que receberá este Share."@,
        Submit::RejectRequest => "A decisão será enviada ao Android. Digite REJEITAR."@,
        Submit::ReindexShare => "Reconstrói estado derivado e preserva arquivos/recovery. Digite REINDEXAR."@,
        Submit::RemapShare => "pc/android/compare; a pasta SAF será escolhida no Android"@,
        Submit::Ignore => "Enter aplica; Shift+Enter cria linha. Regras inválidas são recusadas."@,
        Submit::RestoreRecovery => "Digite RESTAURAR para confirmar."@,
        Submit::KeepRecovery => "Digite MANTER para confirmar."@,
        Submit::ExportRecovery => "Destino novo para a versão recuperada."@,
        Submit::CleanupRecovery => "Digite LIMPAR para confirmar."@,
        Submit::Unlink => "Aguarda confirmação do Android antes de revogar. Digite DESVINCULAR."@,
        Submit::ExportProfile => "Caminho de destino novo, por exemplo /tmp/rowd-profile.json"@,
        Submit::ImportProfile => "Caminho do perfil. A configuração atual terá backup automático."@,
        Submit::ExportBackupPath => "Caminho de destino novo."@,
        Submit::ExportBackupPassphrase => "Mínimo de 8 caracteres. A senha não será armazenada."@,
        Submit::ImportBackupPath => "Caminho do backup. A configuração atual será preservada antes da troca."@,
        Submit::ImportBackupPassphrase => "A autenticação do arquivo ocorre antes de qualquer alteração."@,
        Submit::ExportDiagnostic => "Caminho de destino novo; segredos e chave privada não serão incluídos."@,
        Submit::ResetInitial => "Arquiva o estado administrativo e preserva arquivos. Digite INICIAL."@,
        Submit::ResetAll => "Move .rowd para um arquivo recuperável. Digite APAGAR TUDO."@,
    }
}

/// What a dialog asks for.
pub fn dialog_hint(submit: Submit) -> (r: &'static str)
    ensures
        r@ == hint_of(submit),
{
    match submit {
        Submit::Pair => "Use IP:porta alcançável pelo Android; 0.0.0.0 descobre o IP local.",
        Submit::AddShare => "nome | pasta absoluta no PC | bidirectional/to_android/to_pc",
        Submit::EditShare => "nome | pasta absoluta no PC | bidirectional/to_android/to_pc",
        Submit::RemoveShare => "Remove a rota, preservando os arquivos. Digite REMOVER.",
        Submit::AcceptRequest => "Pasta absoluta no PC que receberá este Share.",
        Submit::RejectRequest => "A decisão será enviada ao Android. Digite REJEITAR.",
        Submit::ReindexShare => "Reconstrói estado derivado e preserva arquivos/recovery. Digite REINDEXAR.",
        Submit::RemapShare => "pc/android/compare; a pasta SAF será escolhida no Android",
        Submit::Ignore => "Enter aplica; Shift+Enter cria linha. Regras inválidas são recusadas.",
        Submit::RestoreRecovery => "Digite RESTAURAR para confirmar.",
        Submit::KeepRecovery => "Digite MANTER para confirmar.",
        Submit::ExportRecovery => "Destino novo para a versão recuperada.",
        Submit::CleanupRecovery => "Digite LIMPAR para confirmar.",
        Submit::Unlink => "Aguarda confirmação do Android antes de revogar. Digite DESVINCULAR.",
        Submit::ExportProfile => "Caminho de destino novo, por exemplo /tmp/rowd-profile.json",
        Submit::ImportProfile => "Caminho do perfil. A configuração atual terá backup automático.",
        Submit::ExportBackupPath => "Caminho de destino novo.",
        Submit::ExportBackupPassphrase => "Mínimo de 8 caracteres. A senha não será armazenada.",
        Submit::ImportBackupPath => "Caminho do backup. A configuração atual será preservada antes da troca.",
        Submit::ImportBackupPassphrase => "A autenticação do arquivo ocorre antes de qualquer alteração.",
        Submit::ExportDiagnostic => "Caminho de destino novo; segredos e chave privada não serão incluídos.",
        Submit::ResetInitial => "Arquiva o estado administrativo e preserva arquivos. Digite INICIAL.",
        Submit::ResetAll => "Move .rowd para um arquivo recuperável. Digite APAGAR TUDO.",
    }
}

/// The word that confirms, where one does.
pub open spec fn token_of(submit: Submit) -> Chars {
    match submit {
        Submit::Pair => ""@,
        Submit::AddShare => ""@,
        Submit::EditShare => ""@,
        Submit::RemoveShare => "REMOVER"@,
        Submit::AcceptRequest => ""@,
        Submit::RejectRequest => "REJEITAR"@,
        Submit::ReindexShare => "REINDEXAR"@,
        Submit::RemapShare => ""@,
        Submit::Ignore => ""@,
        Submit::RestoreRecovery => "RESTAURAR"@,
        Submit::KeepRecovery => "MANTER"@,
        Submit::ExportRecovery => ""@,
        Submit::CleanupRecovery => "LIMPAR"@,
        Submit::Unlink => "DESVINCULAR"@,
        Submit::ExportProfile => ""@,
        Submit::ImportProfile => ""@,
        Submit::ExportBackupPath => ""@,
        Submit::ExportBackupPassphrase => ""@,
        Submit::ImportBackupPath => ""@,
        Submit::ImportBackupPassphrase => ""@,
        Submit::ExportDiagnostic => ""@,
        Submit::ResetInitial => "INICIAL"@,
        Submit::ResetAll => "APAGAR TUDO"@,
    }
}

/// The word that confirms, where one does.
pub fn dialog_token(submit: Submit) -> (r: &'static str)
    ensures
        r@ == token_of(submit),
{
    match submit {
        Submit::Pair => "",
        Submit::AddShare => "",
        Submit::EditShare => "",
        Submit::RemoveShare => "REMOVER",
        Submit::AcceptRequest => "",
        Submit::RejectRequest => "REJEITAR",
        Submit::ReindexShare => "REINDEXAR",
        Submit::RemapShare => "",
        Submit::Ignore => "",
        Submit::RestoreRecovery => "RESTAURAR",
        Submit::KeepRecovery => "MANTER",
        Submit::ExportRecovery => "",
        Submit::CleanupRecovery => "LIMPAR",
        Submit::Unlink => "DESVINCULAR",
        Submit::ExportProfile => "",
        Submit::ImportProfile => "",
        Submit::ExportBackupPath => "",
        Submit::ExportBackupPassphrase => "",
        Submit::ImportBackupPath => "",
        Submit::ImportBackupPassphrase => "",
        Submit::ExportDiagnostic => "",
        Submit::ResetInitial => "INICIAL",
        Submit::ResetAll => "APAGAR TUDO",
    }
}

/// What is told when what was asked for is done.
pub open spec fn done_of(submit: Submit) -> Chars {
    match submit {
        Submit::Pair => "QR pronto para leitura pelo Android."@,
        Submit::AddShare => "Share adicionado."@,
        Submit::EditShare => "Share atualizado; a próxima rodada usará a nova configuração."@,
        Submit::RemoveShare => "Share removido; arquivos locais foram preservados."@,
        Submit::AcceptRequest => "Solicitação aceita."@,
        Submit::RejectRequest => "Solicitação rejeitada; o Android receberá a decisão na próxima conexão."@,
        Submit::ReindexShare => "Reindexação concluída; recovery foi preservado."@,
        Submit::RemapShare => "Vínculo Android invalidado; escolha a nova pasta SAF no aparelho."@,
        Submit::Ignore => ".rowdignore validado e aplicado; Share reindexado."@,
        Submit::RestoreRecovery => "Versão restaurada; a versão substituída foi preservada."@,
        Submit::KeepRecovery => "Versão atual mantida e recovery marcado como resolvido."@,
        Submit::ExportRecovery => "Versão exportada."@,
        Submit::CleanupRecovery => "Registro resolvido removido manualmente."@,
        Submit::Unlink => "Desvinculação pendente até o Android confirmar; arquivos e recovery preservados."@,
        Submit::ExportProfile => "Perfil sem segredos exportado."@,
        Submit::ImportProfile => "Perfil importado."@,
        Submit::ExportBackupPath => ""@,
        Submit::ExportBackupPassphrase => "Backup completo criptografado exportado com permissão privada."@,
        Submit::ImportBackupPath => ""@,
        Submit::ImportBackupPassphrase => "Backup completo autenticado e importado."@,
        Submit::ExportDiagnostic => "Diagnóstico sanitizado exportado."@,
        Submit::ResetInitial => "Configuração inicial restaurada; estado anterior arquivado."@,
        Submit::ResetAll => "Dados internos movidos para um arquivo recuperável."@,
    }
}

/// What is told when what was asked for is done.
pub fn dialog_done(submit: Submit) -> (r: &'static str)
    ensures
        r@ == done_of(submit),
{
    match submit {
        Submit::Pair => "QR pronto para leitura pelo Android.",
        Submit::AddShare => "Share adicionado.",
        Submit::EditShare => "Share atualizado; a próxima rodada usará a nova configuração.",
        Submit::RemoveShare => "Share removido; arquivos locais foram preservados.",
        Submit::AcceptRequest => "Solicitação aceita.",
        Submit::RejectRequest => "Solicitação rejeitada; o Android receberá a decisão na próxima conexão.",
        Submit::ReindexShare => "Reindexação concluída; recovery foi preservado.",
        Submit::RemapShare => "Vínculo Android invalidado; escolha a nova pasta SAF no aparelho.",
        Submit::Ignore => ".rowdignore validado e aplicado; Share reindexado.",
        Submit::RestoreRecovery => "Versão restaurada; a versão substituída foi preservada.",
        Submit::KeepRecovery => "Versão atual mantida e recovery marcado como resolvido.",
        Submit::ExportRecovery => "Versão exportada.",
        Submit::CleanupRecovery => "Registro resolvido removido manualmente.",
        Submit::Unlink => "Desvinculação pendente até o Android confirmar; arquivos e recovery preservados.",
        Submit::ExportProfile => "Perfil sem segredos exportado.",
        Submit::ImportProfile => "Perfil importado.",
        Submit::ExportBackupPath => "",
        Submit::ExportBackupPassphrase => "Backup completo criptografado exportado com permissão privada.",
        Submit::ImportBackupPath => "",
        Submit::ImportBackupPassphrase => "Backup completo autenticado e importado.",
        Submit::ExportDiagnostic => "Diagnóstico sanitizado exportado.",
        Submit::ResetInitial => "Configuração inicial restaurada; estado anterior arquivado.",
        Submit::ResetAll => "Dados internos movidos para um arquivo recuperável.",
    }
}

/// What is told while the work goes on beside the desk; nothing where it is
/// done at once.
pub open spec fn job_of(submit: Submit) -> Option<Chars> {
    match submit {
        Submit::Pair => None,
        Submit::AddShare => None,
        Submit::EditShare => None,
        Submit::RemoveShare => None,
        Submit::AcceptRequest => Some("Aceitando solicitação"@),
        Submit::RejectRequest => Some("Rejeitando solicitação"@),
        Submit::ReindexShare => Some("Reindexando Share"@),
        Submit::RemapShare => Some("Remapeando Share"@),
        Submit::Ignore => Some("Aplicando .rowdignore"@),
        Submit::RestoreRecovery => Some("Restaurando versão"@),
        Submit::KeepRecovery => Some("Mantendo versão atual"@),
        Submit::ExportRecovery => Some("Exportando versão"@),
        Submit::CleanupRecovery => Some("Limpando recovery"@),
        Submit::Unlink => Some("Desvinculando dispositivo"@),
        Submit::ExportProfile => None,
        Submit::ImportProfile => Some("Importando perfil"@),
        Submit::ExportBackupPath => None,
        Submit::ExportBackupPassphrase => Some("Exportando backup"@),
        Submit::ImportBackupPath => None,
        Submit::ImportBackupPassphrase => Some("Importando backup"@),
        Submit::ExportDiagnostic => None,
        Submit::ResetInitial => Some("Restaurando configuração inicial"@),
        Submit::ResetAll => Some("Arquivando dados internos"@),
    }
}

/// What is told while the work goes on beside the desk.
pub fn dialog_job(submit: Submit) -> (r: Option<&'static str>)
    ensures
        r is Some <==> job_of(submit) is Some,
        r is Some ==> r->0@ == job_of(submit)->0,
{
    match submit {
        Submit::Pair => None,
        Submit::AddShare => None,
        Submit::EditShare => None,
        Submit::RemoveShare => None,
        Submit::AcceptRequest => Some("Aceitando solicitação"),
        Submit::RejectRequest => Some("Rejeitando solicitação"),
        Submit::ReindexShare => Some("Reindexando Share"),
        Submit::RemapShare => Some("Remapeando Share"),
        Submit::Ignore => Some("Aplicando .rowdignore"),
        Submit::RestoreRecovery => Some("Restaurando versão"),
        Submit::KeepRecovery => Some("Mantendo versão atual"),
        Submit::ExportRecovery => Some("Exportando versão"),
        Submit::CleanupRecovery => Some("Limpando recovery"),
        Submit::Unlink => Some("Desvinculando dispositivo"),
        Submit::ExportProfile => None,
        Submit::ImportProfile => Some("Importando perfil"),
        Submit::ExportBackupPath => None,
        Submit::ExportBackupPassphrase => Some("Exportando backup"),
        Submit::ImportBackupPath => None,
        Submit::ImportBackupPassphrase => Some("Importando backup"),
        Submit::ExportDiagnostic => None,
        Submit::ResetInitial => Some("Restaurando configuração inicial"),
        Submit::ResetAll => Some("Arquivando dados internos"),
    }
}

/// What a dialog is about.
pub open spec fn subject_of(submit: Submit) -> Subject {
    match submit {
        Submit::Pair => Subject::Nothing,
        Submit::AddShare => Subject::Nothing,
        Submit::EditShare => Subject::Share,
        Submit::RemoveShare => Subject::Share,
        Submit::AcceptRequest => Subject::Request,
        Submit::RejectRequest => Subject::Request,
        Submit::ReindexShare => Subject::Share,
        Submit::RemapShare => Subject::Share,
        Submit::Ignore => Subject::Share,
        Submit::RestoreRecovery => Subject::Recovery,
        Submit::KeepRecovery => Subject::Recovery,
        Submit::ExportRecovery => Subject::Recovery,
        Submit::CleanupRecovery => Subject::Recovery,
        Submit::Unlink => Subject::Nothing,
        Submit::ExportProfile => Subject::Nothing,
        Submit::ImportProfile => Subject::Nothing,
        Submit::ExportBackupPath => Subject::Nothing,
        Submit::ExportBackupPassphrase => Subject::Nothing,
        Submit::ImportBackupPath => Subject::Nothing,
        Submit::ImportBackupPassphrase => Subject::Nothing,
        Submit::ExportDiagnostic => Subject::Nothing,
        Submit::ResetInitial => Subject::Nothing,
        Submit::ResetAll => Subject::Nothing,
    }
}

/// What a dialog is about.
pub fn dialog_subject(submit: Submit) -> (r: Subject)
    ensures
        r == subject_of(submit),
{
    match submit {
        Submit::Pair => Subject::Nothing,
        Submit::AddShare => Subject::Nothing,
        Submit::EditShare => Subject::Share,
        Submit::RemoveShare => Subject::Share,
        Submit::AcceptRequest => Subject::Request,
        Submit::RejectRequest => Subject::Request,
        Submit::ReindexShare => Subject::Share,
        Submit::RemapShare => Subject::Share,
        Submit::Ignore => Subject::Share,
        Submit::RestoreRecovery => Subject::Recovery,
        Submit::KeepRecovery => Subject::Recovery,
        Submit::ExportRecovery => Subject::Recovery,
        Submit::CleanupRecovery => Subject::Recovery,
        Submit::Unlink => Subject::Nothing,
        Submit::ExportProfile => Subject::Nothing,
        Submit::ImportProfile => Subject::Nothing,
        Submit::ExportBackupPath => Subject::Nothing,
        Submit::ExportBackupPassphrase => Subject::Nothing,
        Submit::ImportBackupPath => Subject::Nothing,
        Submit::ImportBackupPassphrase => Subject::Nothing,
        Submit::ExportDiagnostic => Subject::Nothing,
        Submit::ResetInitial => Subject::Nothing,
        Submit::ResetAll => Subject::Nothing,
    }
}

/// How the answer of a dialog is read.
#[derive(Clone, Copy, Debug, PartialEq, Eq, Structural)]
pub enum Reading {
    /// As it is.
    Whole,
    /// Without the white space around it.
    Trimmed,
    /// As a word that confirms.
    Token,
    /// As a text that must be there.
    Needed(FormError),
    /// As the form of a Share.
    Form,
    /// As a remapping's policy.
    Policy,
}

/// How the answer of a dialog is read.
pub open spec fn reading_of(submit: Submit) -> Reading {
    match submit {
        Submit::Pair => Reading::Trimmed,
        Submit::AddShare | Submit::EditShare => Reading::Form,
        Submit::AcceptRequest => Reading::Needed(FormError::NoLocalFolder),
        Submit::ExportRecovery => Reading::Needed(FormError::NoDestination),
        Submit::RemapShare => Reading::Policy,
        Submit::Ignore | Submit::ExportBackupPassphrase | Submit::ImportBackupPassphrase =>
            Reading::Whole,
        Submit::ExportProfile | Submit::ImportProfile | Submit::ExportBackupPath
        | Submit::ImportBackupPath | Submit::ExportDiagnostic => Reading::Needed(FormError::NoPath),
        _ => Reading::Token,
    }
}

/// How the answer of a dialog is read.
pub fn dialog_reading(submit: Submit) -> (r: Reading)
    ensures
        r == reading_of(submit),
{
    match submit {
        Submit::Pair => Reading::Trimmed,
        Submit::AddShare => Reading::Form,
        Submit::EditShare => Reading::Form,
        Submit::AcceptRequest => Reading::Needed(FormError::NoLocalFolder),
        Submit::ExportRecovery => Reading::Needed(FormError::NoDestination),
        Submit::RemapShare => Reading::Policy,
        Submit::Ignore => Reading::Whole,
        Submit::ExportBackupPassphrase => Reading::Whole,
        Submit::ImportBackupPassphrase => Reading::Whole,
        Submit::ExportProfile => Reading::Needed(FormError::NoPath),
        Submit::ImportProfile => Reading::Needed(FormError::NoPath),
        Submit::ExportBackupPath => Reading::Needed(FormError::NoPath),
        Submit::ImportBackupPath => Reading::Needed(FormError::NoPath),
        Submit::ExportDiagnostic => Reading::Needed(FormError::NoPath),
        _ => Reading::Token,
    }
}

/// A dialog that asks for something irreversible or far-reaching has a word
/// that confirms, and no other has one.
pub proof fn law_tokens_confirm(submit: Submit)
    ensures
        reading_of(submit) == Reading::Token <==> token_of(submit).len() > 0,
{
    reveal_strlit("");
    reveal_strlit("REMOVER");
    reveal_strlit("REJEITAR");
    reveal_strlit("REINDEXAR");
    reveal_strlit("RESTAURAR");
    reveal_strlit("MANTER");
    reveal_strlit("LIMPAR");
    reveal_strlit("DESVINCULAR");
    reveal_strlit("INICIAL");
    reveal_strlit("APAGAR TUDO");
}

/// What is wrong with an answer, if anything is.
pub open spec fn answer_fault(submit: Submit, value: Chars) -> Option<FormError> {
    match reading_of(submit) {
        Reading::Whole | Reading::Trimmed => None,
        Reading::Token => if trimmed(value) == token_of(submit) {
            None
        } else {
            Some(FormError::Token)
        },
        Reading::Needed(missing) => if trimmed(value).len() > 0 {
            None
        } else {
            Some(missing)
        },
        Reading::Form => form_fault(value),
        Reading::Policy => if exists|p: RemapPolicy| trimmed(value) == #[trigger] policy_word(p) {
            None
        } else {
            Some(FormError::Policy)
        },
    }
}

/// What is done upon an answer: with which texts, mode and policy.
pub struct Answer {
    /// What the dialog was about, and the texts of the answer.
    pub args: Vec<String>,
    pub mode: Option<SyncMode>,
    pub policy: Option<RemapPolicy>,
}

/// The texts of an answer.
pub open spec fn answer_texts(submit: Submit, value: Chars) -> Seq<Chars> {
    match reading_of(submit) {
        Reading::Whole => seq![value],
        Reading::Trimmed | Reading::Needed(_) => seq![trimmed(value)],
        Reading::Token | Reading::Policy => Seq::empty(),
        Reading::Form => seq![form_fields(value)[0], form_fields(value)[1]],
    }
}

/// Whether an answer's mode and policy are those that were typed.
pub open spec fn choices_match(
    submit: Submit,
    value: Chars,
    mode: Option<SyncMode>,
    policy: Option<RemapPolicy>,
) -> bool {
    &&& reading_of(submit) == Reading::Form ==> mode is Some && mode_word(mode->0) == form_fields(
        value,
    )[2]
    &&& reading_of(submit) != Reading::Form ==> mode is None
    &&& reading_of(submit) == Reading::Policy ==> policy is Some && policy_word(policy->0)
        == trimmed(value)
    &&& reading_of(submit) != Reading::Policy ==> policy is None
}

/// Reads the answer of a dialog.
pub fn read_answer(submit: Submit, subject: &Vec<String>, value: &str) -> (r: Result<
    Answer,
    FormError,
>)
    ensures
        match r {
            Ok(a) => answer_fault(submit, value@) is None && views(a.args@) == views(subject@)
                + answer_texts(submit, value@) && choices_match(
                submit,
                value@,
                a.mode,
                a.policy,
            ),
            Err(e) => answer_fault(submit, value@) == Some(e),
        },
{
    let mut args = copy_strings(subject);
    let ghost before = args@;
    let mut mode: Option<SyncMode> = None;
    let mut policy: Option<RemapPolicy> = None;
    match dialog_reading(submit) {
        Reading::Whole => {
            let text = value.to_string();
            proof {
                lemma_views_push(before, text);
            }
            args.push(text);
        },
        Reading::Trimmed => {
            let text = trim(value);
            proof {
                lemma_views_push(before, text);
            }
            args.push(text);
        },
        Reading::Token => {
            if let Err(e) = require_token(value, dialog_token(submit)) {
                return Err(e);
            }
        },
        Reading::Needed(missing) => {
            let text = match required(value, missing) {
                Ok(text) => text,
                Err(e) => {
                    return Err(e);
                },
            };
            proof {
                lemma_views_push(before, text);
            }
            args.push(text);
        },
        Reading::Form => {
            let form = match share_form(value) {
                Ok(form) => form,
                Err(e) => {
                    return Err(e);
                },
            };
            proof {
                lemma_views_push(before, form.name);
                lemma_views_push(before.push(form.name), form.folder);
            }
            mode = Some(form.mode);
            args.push(form.name);
            args.push(form.folder);
        },
        Reading::Policy => {
            let text = trim(value);
            match parse_policy(text.as_str()) {
                Ok(p) => {
                    assert(trimmed(value@) == policy_word(p));
                    policy = Some(p);
                },
                Err(e) => {
                    return Err(e);
                },
            }
        },
    }
    proof {
        assert(views(args@) =~= views(subject@) + answer_texts(submit, value@));
    }
    Ok(Answer { args, mode, policy })
}

/// What is told of something typed wrong; `token` is the word that would have
/// confirmed.
pub open spec fn form_words(e: FormError, token: Chars) -> Chars {
    match e {
        FormError::Mode => "mode must be bidirectional, to_android or to_pc"@,
        FormError::Policy => "política deve ser pc, android ou compare"@,
        FormError::Fields => "use nome | pasta | modo"@,
        FormError::NoName => "informe o nome"@,
        FormError::NoFolder => "informe a pasta"@,
        FormError::NoLocalFolder => "informe a pasta local"@,
        FormError::NoDestination => "informe o destino"@,
        FormError::NoPath => "informe o caminho"@,
        FormError::Token => "confirmação não corresponde a "@ + token,
        FormError::Busy => "aguarde a operação em andamento"@,
        FormError::UnknownAction => "action must be keep, restore, export or cleanup"@,
        FormError::UnknownLevel => "level must be share, unlink, initial or all"@,
        FormError::ShareRequired => "--share is required"@,
        FormError::ShareWithId => "--share is required with --id"@,
        FormError::ActionRequired => "--action is required"@,
        FormError::OutputRequired => "--output is required"@,
        FormError::Unconfirmed => "use --confirm for reset operations"@,
    }
}

/// What is told of something typed wrong.
pub fn form_text(e: FormError, token: &str) -> (r: String)
    ensures
        r@ == form_words(e, token@),
{
    match e {
        FormError::Mode => "mode must be bidirectional, to_android or to_pc".to_string(),
        FormError::Policy => "política deve ser pc, android ou compare".to_string(),
        FormError::Fields => "use nome | pasta | modo".to_string(),
        FormError::NoName => "informe o nome".to_string(),
        FormError::NoFolder => "informe a pasta".to_string(),
        FormError::NoLocalFolder => "informe a pasta local".to_string(),
        FormError::NoDestination => "informe o destino".to_string(),
        FormError::NoPath => "informe o caminho".to_string(),
        FormError::Token => {
            let mut r = "confirmação não corresponde a ".to_string();
            r.append(token);
            r
        },
        FormError::Busy => "aguarde a operação em andamento".to_string(),
        FormError::UnknownAction => "action must be keep, restore, export or cleanup".to_string(),
        FormError::UnknownLevel => "level must be share, unlink, initial or all".to_string(),
        FormError::ShareRequired => "--share is required".to_string(),
        FormError::ShareWithId => "--share is required with --id".to_string(),
        FormError::ActionRequired => "--action is required".to_string(),
        FormError::OutputRequired => "--output is required".to_string(),
        FormError::Unconfirmed => "use --confirm for reset operations".to_string(),
    }
}


/// Whatever cannot be taken back is asked for by a word that has to be typed.
pub proof fn law_dangerous_steps_need_a_word(submit: Submit)
    requires
        submit == Submit::RemoveShare || submit == Submit::RejectRequest || submit
            == Submit::ReindexShare || submit == Submit::RestoreRecovery || submit
            == Submit::KeepRecovery || submit == Submit::CleanupRecovery || submit == Submit::Unlink
            || submit == Submit::ResetInitial || submit == Submit::ResetAll,
    ensures
        token_of(submit).len() > 0,
{
    reveal_strlit("REMOVER");
    reveal_strlit("REJEITAR");
    reveal_strlit("REINDEXAR");
    reveal_strlit("RESTAURAR");
    reveal_strlit("MANTER");
    reveal_strlit("LIMPAR");
    reveal_strlit("DESVINCULAR");
    reveal_strlit("INICIAL");
    reveal_strlit("APAGAR TUDO");
}

} // verus!
