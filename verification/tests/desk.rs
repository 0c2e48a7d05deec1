use rowd::app::{
    AppSnapshot, ConnectionCheck, ConnectionTest, DeviceStatus, PairingInfo, RecoveryItem, Status,
    StoredError,
};
use rowd::config::{RemapPolicy, ShareRequest, SyncMode};
use rowd::device::fresh_share;
use rowd::dialogs::{
    dialog_job, dialog_reading, dialog_token, form_text, read_answer, Reading, Submit,
};
use rowd::keys::{actions, Key, KeyCommand, KeyEvent, KeyMap, Tab, UiAction};
use rowd::labels::{
    clamp_index, mode_label, mode_value, parse_mode, parse_policy, recovery_command, require_token,
    required, reset_level, share_form, short_action, short_id, split_fields, timestamp_label,
    truncate, yes_no, FormError, RecoveryCommand, ResetLevel,
};
use rowd::layout::{body_panels, centered, divide, qr_popup, Area};
use rowd::screen::{
    connection_detail, device_detail, footer, header, help_text, input_popup, input_text, qr_text,
    recovery_detail, recovery_totals, request_detail, request_lines, share_detail, share_lines,
    tab_label, version_lines, SizeWords,
};
use rowd::tui::{CallKind, InputDialog, Modal, Outcome, Reaction, Ui};

#[test]
fn layout_changes_at_the_two_breakpoints() {
    let wide = body_panels(Area::new(0, 0, 120, 30));
    let medium = body_panels(Area::new(0, 0, 90, 30));
    let narrow = body_panels(Area::new(0, 0, 70, 30));
    assert_eq!(wide.0.y, wide.1.y);
    assert_eq!(medium.0.y, medium.1.y);
    assert!(narrow.1.y > narrow.0.y);
}

#[test]
fn keymap_uses_fixed_contextual_bindings() {
    let key = KeyEvent::new(Key::Char('a'));
    assert!(matches!(
        KeyMap::resolve(key, Tab::Shares),
        Some(KeyCommand::Action(UiAction::AddShare))
    ));
    assert!(KeyMap::resolve(key, Tab::Device).is_none());
}

#[test]
fn panels_share_the_room_by_their_percentages() {
    assert_eq!(divide(110), (true, 38, 62));
    assert_eq!(divide(109), (true, 44, 56));
    assert_eq!(divide(79), (false, 43, 57));
    let (left, right) = body_panels(Area::new(3, 5, 200, 40));
    assert_eq!((left.x, left.y, left.height), (3, 5, 40));
    assert_eq!((left.width, right.width), (76, 124));
    assert_eq!(right.x, 79);
    let (top, bottom) = body_panels(Area::new(2, 1, 50, 100));
    assert_eq!((top.x, top.width, bottom.x, bottom.width), (2, 50, 2, 50));
    assert_eq!((top.height, bottom.height), (43, 57));
}

#[test]
fn panels_have_their_share_of_every_screen() {
    let sizes: Vec<u16> = (0..=260).chain([999, 1000, 4321, 32767, 65000]).collect();
    for &size in &sizes {
        for at in [0u16, 3, 17] {
            let (left, right) = body_panels(Area::new(at, 1, size, 7));
            let (side, first, _) = divide(size);
            if side {
                let share = ((u32::from(size) * u32::from(first) + 50) / 100) as u16;
                assert_eq!(left, Area::new(at, 1, share, 7), "{size}");
                assert_eq!(right, Area::new(at + share, 1, size - share, 7), "{size}");
            }
            let (top, bottom) = body_panels(Area::new(2, at, 60, size));
            let share = ((u32::from(size) * 43 + 50) / 100) as u16;
            assert_eq!(top, Area::new(2, at, 60, share), "{size}");
            assert_eq!(bottom, Area::new(2, at + share, 60, size - share), "{size}");
        }
    }
}

#[test]
fn dialogs_stand_in_the_middle() {
    let area = Area::new(0, 0, 100, 40);
    assert_eq!(centered(area, 76, 9), Area::new(12, 15, 76, 9));
    assert_eq!(centered(Area::new(0, 0, 10, 4), 76, 9), Area::new(1, 1, 8, 2));
    assert_eq!(centered(Area::new(0, 0, 1, 1), 76, 9), Area::new(0, 0, 1, 1));
    let qr = "████\n████\n";
    let popup = qr_popup(area, qr);
    assert_eq!((popup.width, popup.height, popup.fits), (54, 16, true));
    let small = qr_popup(Area::new(0, 0, 8, 8), qr);
    assert!(!small.fits);
}

fn status(c: char, enabled: bool) -> Status {
    let mut share = fresh_share(c.to_string().repeat(64), format!("Share {c}"), SyncMode::ToPc);
    share.root = format!("/{c}");
    share.enabled = enabled;
    Status {
        share,
        root_available: true,
        conflicts: vec![],
        last_sync: None,
        error: None,
        last_error: None,
    }
}

fn version(share: char, path: &str, bytes: u64) -> RecoveryItem {
    RecoveryItem {
        share_id: share.to_string().repeat(64),
        share_name: format!("Share {share}"),
        id: "c".repeat(64),
        path: path.into(),
        finished: false,
        backup_available: true,
        bytes,
    }
}

fn device() -> DeviceStatus {
    DeviceStatus {
        configured: true,
        paired: true,
        address: "10.0.0.1:43821".into(),
        identity: "d".repeat(64),
        fingerprint: "aa:bb".into(),
        sync_paused: false,
        last_connection: Some(40),
    }
}

fn snapshot() -> AppSnapshot {
    AppSnapshot {
        device: device(),
        shares: vec![status('a', true), status('b', false)],
        requests: vec![ShareRequest {
            request_id: "r".repeat(64),
            name: "Fotos".into(),
            mode: SyncMode::ToPc,
        }],
        recovery: vec![version('b', "x", 10), version('a', "y", 5), version('b', "z", 1)],
    }
}

fn desk() -> Ui {
    let mut ui = Ui::new(1_000);
    ui.refresh(Some(snapshot()), 1_000);
    ui
}

fn press(ui: &mut Ui, code: Key) -> Reaction {
    ui.handle_key(KeyEvent::new(code), false)
}

fn typed(ui: &mut Ui, text: &str) {
    for c in text.chars() {
        press(ui, Key::Char(c));
    }
}

fn input(ui: &Ui) -> &InputDialog {
    match &ui.modal {
        Some(Modal::Input(input)) => input,
        _ => panic!("no dialog"),
    }
}

#[test]
fn what_is_shown_is_read_again_when_it_is_due() {
    let mut ui = desk();
    assert_eq!(ui.snapshot.shares.len(), 2);
    ui.shares_index = 1;
    ui.refresh(Some(AppSnapshot::blank()), 1_999);
    assert_eq!(ui.snapshot.shares.len(), 2);
    assert!(!ui.refresh_is_due(1_999));
    assert!(ui.refresh_is_due(2_000));
    ui.refresh(None, 2_000);
    assert_eq!(ui.snapshot.shares.len(), 2);
    ui.recovery_filter = Some("q".into());
    ui.refresh(Some(snapshot()), 3_000);
    assert_eq!(ui.recovery_filter, None);
    ui.refresh(Some(AppSnapshot::blank()), 4_000);
    assert_eq!((ui.shares_index, ui.snapshot.shares.len()), (0, 0));
    assert!(Ui::new(0).wants_server(false) == false);
    assert!(desk().wants_server(false));
    assert!(!desk().wants_server(true));
}

#[test]
fn selections_stop_at_the_ends() {
    let mut ui = desk();
    press(&mut ui, Key::Down);
    press(&mut ui, Key::Down);
    assert_eq!(ui.shares_index, 1);
    press(&mut ui, Key::Up);
    press(&mut ui, Key::Up);
    assert_eq!(ui.shares_index, 0);
    press(&mut ui, Key::Char('3'));
    assert_eq!(ui.tab, Tab::Recovery);
    press(&mut ui, Key::Char('f'));
    assert_eq!(ui.recovery_filter, Some("a".repeat(64)));
    assert_eq!(ui.notice, "Recovery filtrado por Share a.");
    assert_eq!(ui.recovery_len(), 1);
    assert_eq!(ui.selected_recovery().unwrap().path, "y");
    press(&mut ui, Key::Char('f'));
    assert_eq!(ui.recovery_len(), 2);
    press(&mut ui, Key::Down);
    assert_eq!(ui.selected_recovery().unwrap().path, "z");
    press(&mut ui, Key::Char('f'));
    assert_eq!(ui.recovery_filter, None);
    assert_eq!(ui.notice, "Recovery exibindo todos os Shares.");
    press(&mut ui, Key::Tab);
    assert_eq!(ui.tab, Tab::Device);
    press(&mut ui, Key::Tab);
    assert_eq!(ui.tab, Tab::Shares);
    press(&mut ui, Key::BackTab);
    assert_eq!(ui.tab, Tab::Device);
    assert!(matches!(press(&mut ui, Key::Char('q')), Reaction::Quit));
}

#[test]
fn a_share_is_edited_in_a_dialog() {
    let mut ui = desk();
    assert!(matches!(press(&mut ui, Key::Char('e')), Reaction::Nothing));
    assert_eq!(input(&ui).title, "Editar · Share a");
    assert_eq!(input(&ui).value, "Share a | /a | to_pc");
    for _ in 0.."to_pc".len() {
        press(&mut ui, Key::Backspace);
    }
    typed(&mut ui, "bidirectional");
    let Reaction::Do(effect) = press(&mut ui, Key::Enter) else {
        panic!("nothing was done");
    };
    assert_eq!(effect.kind, CallKind::Answer(Submit::EditShare));
    assert_eq!(effect.args, vec!["a".repeat(64), "Share a".into(), "/a".into()]);
    assert_eq!(effect.mode, Some(SyncMode::Bidirectional));
    assert!(!effect.job && ui.dirty && ui.modal.is_none());
    assert!(ui.settle(&effect, Outcome::Done));
    assert_eq!(ui.notice, "Share atualizado; a próxima rodada usará a nova configuração.");
    assert!(ui.settle(&effect, Outcome::Failed("sem pasta".into())));
    assert_eq!(ui.notice, "Ação não concluída: sem pasta");
}

#[test]
fn a_share_is_removed_only_with_the_word_for_it() {
    let mut ui = desk();
    press(&mut ui, Key::Char('d'));
    typed(&mut ui, "remover");
    assert!(matches!(press(&mut ui, Key::Enter), Reaction::Nothing));
    assert_eq!(ui.notice, "Ação não concluída: confirmação não corresponde a REMOVER");
    press(&mut ui, Key::Char('d'));
    press(&mut ui, Key::Esc);
    assert!(ui.modal.is_none());
    press(&mut ui, Key::Char('d'));
    typed(&mut ui, " REMOVER ");
    let Reaction::Do(effect) = press(&mut ui, Key::Enter) else {
        panic!("nothing was done");
    };
    assert_eq!(effect.kind, CallKind::Answer(Submit::RemoveShare));
    assert_eq!(effect.args, vec!["a".repeat(64)]);
}

#[test]
fn work_goes_on_beside_the_desk() {
    let mut ui = desk();
    press(&mut ui, Key::Char('x'));
    typed(&mut ui, "REINDEXAR");
    let Reaction::Do(effect) = press(&mut ui, Key::Enter) else {
        panic!("nothing was done");
    };
    assert!(effect.job);
    assert_eq!(ui.job.as_deref(), Some("Reindexando Share"));
    assert!(matches!(press(&mut ui, Key::Char('a')), Reaction::Nothing));
    assert!(ui.modal.is_none());
    assert_eq!(
        ui.notice,
        "Aguarde a operação em andamento; navegação e ajuda continuam disponíveis."
    );
    assert_eq!(
        ui.submit(Submit::ResetInitial, &vec![], "INICIAL").err(),
        Some(FormError::Busy)
    );
    press(&mut ui, Key::Char('?'));
    assert!(matches!(ui.modal, Some(Modal::Help)));
    press(&mut ui, Key::Esc);
    assert!(ui.settle(&effect, Outcome::Done));
    assert_eq!(ui.job, None);
    assert_eq!(ui.notice, "Reindexação concluída; recovery foi preservado.");
}

#[test]
fn a_backup_asks_for_its_place_and_then_its_passphrase() {
    let mut ui = desk();
    ui.tab = Tab::Device;
    press(&mut ui, Key::Char('b'));
    assert!(matches!(press(&mut ui, Key::Enter), Reaction::Nothing));
    assert_eq!(ui.notice, "Ação não concluída: informe o caminho");
    press(&mut ui, Key::Char('b'));
    typed(&mut ui, " /tmp/copy ");
    assert!(matches!(press(&mut ui, Key::Enter), Reaction::Nothing));
    assert!(input(&ui).secret);
    assert_eq!(input(&ui).subject, vec!["/tmp/copy"]);
    typed(&mut ui, "long enough");
    assert!(input_text(input(&ui)).contains(&"•".repeat(11)));
    let Reaction::Do(effect) = press(&mut ui, Key::Enter) else {
        panic!("nothing was done");
    };
    assert_eq!(effect.args, vec!["/tmp/copy", "long enough"]);
    assert!(effect.job);
}

#[test]
fn a_policy_is_read_before_it_is_edited() {
    let mut ui = desk();
    let Reaction::Do(effect) = press(&mut ui, Key::Char('i')) else {
        panic!("nothing was read");
    };
    assert_eq!(effect.kind, CallKind::ReadIgnore);
    assert!(ui.settle(&effect, Outcome::Text("*.tmp".into())));
    assert_eq!(input(&ui).title, ".rowdignore · Share a");
    let shift = KeyEvent { code: Key::Enter, shift: true };
    ui.handle_key(shift, false);
    typed(&mut ui, "b");
    assert_eq!(input(&ui).value, "*.tmp\nb");
    let area = Area::new(0, 0, 100, 40);
    assert_eq!(input_popup(area, input(&ui)).height, 16);
    let Reaction::Do(effect) = press(&mut ui, Key::Enter) else {
        panic!("nothing was done");
    };
    assert_eq!(effect.args, vec!["a".repeat(64), "*.tmp\nb".into()]);
}

#[test]
fn what_nobody_was_asked_about_ends_the_program_when_it_fails() {
    let mut ui = desk();
    let Reaction::Do(effect) = press(&mut ui, Key::Char(' ')) else {
        panic!("nothing was done");
    };
    assert_eq!(effect.kind, CallKind::SetEnabled(false));
    assert!(!ui.settle(&effect, Outcome::Failed("x".into())));
    assert!(ui.settle(&effect, Outcome::Done));
    assert_eq!(ui.notice, "Share pausado; arquivos e estado foram preservados.");
    let Reaction::Do(effect) = press(&mut ui, Key::Char('s')) else {
        panic!("nothing was done");
    };
    assert_eq!(effect.done.as_deref(), Some("Share a foi priorizado para a próxima conexão."));
    ui.tab = Tab::Device;
    let Reaction::Do(effect) = press(&mut ui, Key::Char('o')) else {
        panic!("nothing was done");
    };
    assert!(ui.settle(&effect, Outcome::Failed("no invitation".into())));
    assert_eq!(input(&ui).value, "10.0.0.1:43821");
    let info = PairingInfo { device: device(), qr: "██".into(), qr_image: "/qr.svg".into() };
    assert!(ui.settle(&effect, Outcome::Pairing(info)));
    assert!(matches!(ui.modal, Some(Modal::Qr(_))));
    ui.modal = None;
    let Reaction::Do(effect) = press(&mut ui, Key::Char('t')) else {
        panic!("nothing was done");
    };
    assert_eq!(effect.kind, CallKind::TraceOn);
    let Reaction::Do(effect) = press(&mut ui, Key::Char('T')) else {
        panic!("nothing was done");
    };
    let test = ConnectionTest { checks: vec![], available_shares: 1, total_shares: 2 };
    assert!(ui.settle(&effect, Outcome::Test(test)));
    assert!(ui.connection.is_some());
    ui.tell("olá".into());
    assert_eq!(ui.notice, "olá");
}

#[test]
fn answers_are_read() {
    let subject = vec!["id".to_string()];
    let a = read_answer(Submit::RemapShare, &subject, " android ").unwrap();
    assert_eq!(a.policy, Some(RemapPolicy::Android));
    assert_eq!(a.args, vec!["id"]);
    assert_eq!(
        read_answer(Submit::RemapShare, &subject, "x").err(),
        Some(FormError::Policy)
    );
    assert_eq!(
        read_answer(Submit::AcceptRequest, &subject, " ").err(),
        Some(FormError::NoLocalFolder)
    );
    assert_eq!(
        read_answer(Submit::ExportRecovery, &subject, "").err(),
        Some(FormError::NoDestination)
    );
    assert_eq!(
        read_answer(Submit::AddShare, &vec![], "a | b").err(),
        Some(FormError::Fields)
    );
    assert_eq!(
        read_answer(Submit::AddShare, &vec![], " | b | to_pc").err(),
        Some(FormError::NoName)
    );
    assert_eq!(
        read_answer(Submit::AddShare, &vec![], "a | | to_pc").err(),
        Some(FormError::NoFolder)
    );
    assert_eq!(
        read_answer(Submit::AddShare, &vec![], "a | b | up").err(),
        Some(FormError::Mode)
    );
    assert_eq!(dialog_token(Submit::ResetAll), "APAGAR TUDO");
    assert_eq!(dialog_job(Submit::AddShare), None);
    assert_eq!(dialog_reading(Submit::Unlink), Reading::Token);
    assert_eq!(form_text(FormError::Fields, ""), "use nome | pasta | modo");
}

#[test]
fn pages_are_put_into_words() {
    let ui = desk();
    let top = header(&ui, 100);
    assert_eq!((top.sync, top.phone), ("SYNC ATIVO", "ANDROID VINCULADO"));
    assert_eq!(top.counts, " 2 Shares  ·  0 conflitos  ");
    assert_eq!(top.work, "Pronto. Use ? para consultar todas as ações.");
    assert_eq!(header(&ui, 40).work, "");
    assert_eq!(tab_label(Tab::Requests), " 2 Solicitações ");
    assert!(footer(Tab::Requests).starts_with("a Aceitar  r Rejeitar\n1..4 abas"));
    assert_eq!(
        share_lines(&ui.snapshot.shares),
        vec![
            "Share a\nATIVO · Android → PC · 0 conf.",
            "Share b\nPAUSADO · Android → PC · 0 conf."
        ]
    );
    assert_eq!(
        share_lines(&vec![]),
        vec!["Nenhum Share\nUse a para criar a primeira rota."]
    );
    assert_eq!(
        request_lines(&ui.snapshot.requests),
        vec!["Fotos\nPENDENTE · Android → PC"]
    );
    let detail = request_detail(ui.selected_request());
    assert!(detail.starts_with("Nome\nFotos\n\nEstado\nPENDENTE\n\nModo\nAndroid → PC\n\n"));
    assert!(detail.contains("rrrrrrrrrr…rrrrrr"));
    assert!(request_detail(None).starts_with("Aguardando solicitações."));
    let mut failing = status('a', true);
    failing.conflicts = (0..8).map(|n| format!("c{n}")).collect();
    failing.last_error = Some(StoredError {
        at: 40,
        operation: "sync".into(),
        message: "sem rota".into(),
        resolved_at: None,
    });
    let words = share_detail(Some(&failing), 100);
    assert!(words.contains("Conflitos (8)\n  c0\n  c1\n  c2\n  c3\n  c4\n  c5\n\n"));
    assert!(words.ends_with("Último erro\nhá 1min · sync\nsem rota\nnão resolvido"));
    let words = device_detail(&device(), true, 100);
    assert!(words.contains("Última conexão\nhá 1min"));
    assert!(words.contains("Trace de desempenho\nLigado"));
    let test = ConnectionTest {
        checks: vec![ConnectionCheck { label: "TCP".into(), ok: false, detail: "x".into() }],
        available_shares: 1,
        total_shares: 2,
    };
    assert_eq!(
        connection_detail(Some(&test)),
        "[FALHA] TCP\n    x\n\nShares disponíveis\n1/2"
    );
    let help = help_text();
    assert!(help.contains("\nSOLICITAÇÕES\na Aceitar solicitação  ·  r Rejeitar solicitação\n"));
    let info = PairingInfo { device: device(), qr: "██".into(), qr_image: "/qr.svg".into() };
    assert_eq!(
        qr_text(&info, true, 54, 16),
        "Leia no Android\n██\nFingerprint SHA-256\naa:bb\nSVG privado: /qr.svg"
    );
    assert!(qr_text(&info, false, 54, 16).contains("Amplie para cerca de 54 × 16."));
}

#[test]
fn versions_are_put_into_words() {
    let mut ui = desk();
    ui.recovery_filter = Some("b".repeat(64));
    assert_eq!(version_lines(&ui), vec!["x\nShare b · PENDENTE", "z\nShare b · PENDENTE"]);
    let totals = recovery_totals(&ui);
    assert_eq!((totals.total, totals.filtered, totals.shown), (16, 11, 2));
    let by: Vec<(&str, usize, u64)> =
        totals.by_share.iter().map(|t| (t.name.as_str(), t.count, t.bytes)).collect();
    assert_eq!(by, vec![("Share a", 1, 5), ("Share b", 2, 11)]);
    let words = SizeWords {
        total: "16 B".into(),
        filtered: "11 B".into(),
        item: "10 B".into(),
        by_share: vec!["5 B".into(), "11 B".into()],
    };
    let text = recovery_detail(&ui, &totals, &words);
    assert!(text.starts_with("Filtro\nShare b · 11 B em 2 versões\n\nShare\nShare b\n\n"));
    assert!(text.ends_with("Por Share\nShare a: 1 versões · 5 B\nShare b: 2 versões · 11 B"));
    ui.snapshot.recovery.clear();
    let totals = recovery_totals(&ui);
    let none = SizeWords { by_share: vec![], ..words };
    assert!(recovery_detail(&ui, &totals, &none).ends_with("Por Share\nnenhum"));
    assert_eq!(version_lines(&ui), vec!["Nenhuma versão neste filtro"]);
}

#[test]
fn every_action_has_its_key() {
    for action in actions() {
        let key = KeyEvent::new(action.key());
        assert_eq!(
            KeyMap::resolve(key, action.tab()),
            Some(KeyCommand::Action(action)),
            "{action:?}"
        );
    }
    assert_eq!(actions().len(), 28);
}

#[test]
fn values_are_put_into_words() {
    assert_eq!(timestamp_label(None, 5), "ainda não");
    assert_eq!(timestamp_label(Some(10), 69), "há 59s");
    assert_eq!(timestamp_label(Some(10), 70), "há 1min");
    assert_eq!(timestamp_label(Some(0), 7_200), "há 2h");
    assert_eq!(timestamp_label(Some(0), 200_000), "há 2d");
    assert_eq!(timestamp_label(Some(9), 5), "há 0s");
    assert_eq!(short_id("0123456789abcdefgh"), "0123456789abcdefgh");
    assert_eq!(short_id("0123456789abcdefghi"), "0123456789…defghi");
    assert_eq!(truncate("abcdef", 3), "");
    assert_eq!(truncate("abcdef", 5), "abcd…");
    assert_eq!(truncate("abcdef", 6), "abcdef");
    assert_eq!((yes_no(true), yes_no(false)), ("sim", "não"));
    assert_eq!(short_action("Adicionar Share"), "Adicionar");
    assert_eq!(short_action("Rejeitar solicitação"), "Rejeitar");
    assert_eq!(short_action("Restaurar versão"), "Restaurar");
    assert_eq!(short_action("Desvincular"), "Desvincular");
    assert_eq!((clamp_index(5, 3), clamp_index(1, 3), clamp_index(1, 0)), (2, 1, 0));
    for mode in [SyncMode::Bidirectional, SyncMode::ToAndroid, SyncMode::ToPc] {
        assert_eq!(parse_mode(mode_value(mode)), Ok(mode));
    }
    assert_eq!(mode_label(SyncMode::Bidirectional), "bidirecional");
    assert_eq!(parse_policy("pc"), Ok(RemapPolicy::Pc));
    assert_eq!(split_fields(" a | b ", 2).unwrap(), vec!["a", "b"]);
    let form = share_form("Docs | /d | to_android").unwrap();
    assert_eq!((form.name.as_str(), form.folder.as_str()), ("Docs", "/d"));
    assert!(require_token(" X ", "X").is_ok());
    assert_eq!(required(" ", FormError::NoPath), Err(FormError::NoPath));
}

#[test]
fn commands_are_told_apart() {
    let some = |s: &str| Some(s.to_string());
    assert_eq!(recovery_command(false, false, &None, false), Ok(RecoveryCommand::List));
    assert_eq!(recovery_command(true, false, &None, false), Err(FormError::ShareWithId));
    assert_eq!(recovery_command(true, true, &None, false), Err(FormError::ActionRequired));
    assert_eq!(
        recovery_command(true, true, &some("export"), false),
        Err(FormError::OutputRequired)
    );
    assert_eq!(
        recovery_command(true, true, &some("keep"), false),
        Ok(RecoveryCommand::Keep)
    );
    assert_eq!(
        recovery_command(true, true, &some("burn"), false),
        Err(FormError::UnknownAction)
    );
    assert_eq!(reset_level(false, "all", false), Err(FormError::Unconfirmed));
    assert_eq!(reset_level(true, "all", false), Ok(ResetLevel::All));
    assert_eq!(reset_level(true, "share", false), Err(FormError::ShareRequired));
    assert_eq!(reset_level(true, "x", false), Err(FormError::UnknownLevel));
}
