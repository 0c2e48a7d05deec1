//! What the desk shows: the words of its pages.

use crate::app::{
    bytes_of, error_of, lemma_bytes_grow, CheckView, ConnectionCheck, ConnectionTest, DeviceStatus,
    PairingInfo, RecoveryItem, Status, StatusView, StoredErrorView,
};
use crate::collections::{lists, StringSet};
use crate::config::{owned_text, RequestView, ShareRequest};
use crate::keys::{all_actions, page_help, page_keys, tab_title, Tab};
use crate::labels::{
    fitted, mode_label, mode_shown, short_id, shortened, timestamp_label, truncate, moment, yes_no,
    yes_or_no,
};
use crate::layout::{centered, centre, on_screen, Area};
use crate::primitives::uppercase;
use crate::text::{chars_of, decimal, join, joined, lemma_views_push, number, same, views, Chars};
use crate::tui::{passes, selected_version, visible, InputDialog, InputView, Ui, UiView};
use vstd::prelude::*;

verus! {

/// The number of conflicts of all Shares.
pub open spec fn conflict_count(shares: Seq<Status>) -> nat
    decreases shares.len(),
{
    if shares.len() == 0 {
        0
    } else {
        conflict_count(shares.drop_last()) + shares.last().conflicts@.len()
    }
}

proof fn lemma_conflicts_grow(shares: Seq<Status>, i: int)
    requires
        0 <= i <= shares.len(),
    ensures
        conflict_count(shares.take(i)) <= conflict_count(shares),
    decreases shares.len() - i,
{
    if i == shares.len() {
        assert(shares.take(i) =~= shares);
    } else {
        lemma_conflicts_grow(shares, i + 1);
        assert(shares.take(i + 1).drop_last() =~= shares.take(i));
    }
}

/// The words at the top of the screen.
pub struct Header {
    pub sync: &'static str,
    pub phone: &'static str,
    pub counts: String,
    /// What goes on, or what was told last.
    pub work: String,
}

/// What goes on, or what was told last.
pub open spec fn work_of(u: UiView) -> Chars {
    match u.job {
        Some(label) => label,
        None => u.notice,
    }
}

/// The room for [`work_of`] on a line.
pub open spec fn work_width(width: u16) -> usize {
    if width < 45 {
        0
    } else {
        (width - 45) as usize
    }
}

/// The words at the top of the screen.
pub fn header(ui: &Ui, width: u16) -> (r: Header)
    requires
        conflict_count(ui.snapshot.shares@) <= u64::MAX,
    ensures
        r.sync@ == if ui.snapshot.device.sync_paused {
            "SYNC PAUSADO"@
        } else {
            "SYNC ATIVO"@
        },
        r.phone@ == if ui.snapshot.device.paired {
            "ANDROID VINCULADO"@
        } else {
            "ANDROID AGUARDANDO"@
        },
        r.counts@ == " "@ + decimal(ui.snapshot.shares@.len()) + " Shares  ·  "@ + decimal(
            conflict_count(ui.snapshot.shares@),
        ) + " conflitos  "@,
        r.work@ == fitted(work_of(ui@), work_width(width)),
{
    let ghost all = ui.snapshot.shares@;
    let mut conflicts: u64 = 0;
    let mut i: usize = 0;
    assert(all.take(0) =~= Seq::<Status>::empty());
    while i < ui.snapshot.shares.len()
        invariant
            i <= ui.snapshot.shares@.len(),
            all == ui.snapshot.shares@,
            conflict_count(all) <= u64::MAX,
            conflicts == conflict_count(all.take(i as int)),
        decreases ui.snapshot.shares@.len() - i,
    {
        proof {
            lemma_conflicts_grow(all, i + 1);
            assert(all.take(i + 1).drop_last() =~= all.take(i as int));
            assert(all.take(i + 1).last() == all[i as int]);
        }
        let count: u64 = ui.snapshot.shares[i].conflicts.len() as u64;
        conflicts = conflicts + count;
        i = i + 1;
    }
    assert(all.take(i as int) =~= all);
    let mut counts = " ".to_string();
    let shares = number(ui.snapshot.shares.len() as u64);
    counts.append(shares.as_str());
    counts.append(" Shares  ·  ");
    let found = number(conflicts);
    counts.append(found.as_str());
    counts.append(" conflitos  ");
    let room: usize = if width < 45 {
        0
    } else {
        (width - 45) as usize
    };
    let work = match &ui.job {
        Some(label) => truncate(label.as_str(), room),
        None => truncate(ui.notice.as_str(), room),
    };
    Header {
        sync: if ui.snapshot.device.sync_paused {
            "SYNC PAUSADO"
        } else {
            "SYNC ATIVO"
        },
        phone: if ui.snapshot.device.paired {
            "ANDROID VINCULADO"
        } else {
            "ANDROID AGUARDANDO"
        },
        counts,
        work,
    }
}

/// The title of a page as it stands among the others.
pub fn tab_label(tab: Tab) -> (r: String)
    ensures
        r@ == " "@ + decimal((crate::keys::tab_number(tab) + 1) as nat) + " "@ + tab_title(tab)
            + " "@,
{
    let mut r = " ".to_string();
    let n = number(tab.index() as u64 + 1);
    r.append(n.as_str());
    r.append(" ");
    r.append(tab.title());
    r.append(" ");
    r
}

/// The keys of the page and of every page.
pub fn footer(tab: Tab) -> (r: String)
    ensures
        r@ == joined(page_keys(all_actions(), tab, true), "  "@)
            + "\n1..4 abas  Tab/Shift+Tab navegar  ↑↓ selecionar  ? ajuda  q sair"@,
{
    let mut r = page_help(tab, true, "  ");
    r.append("\n1..4 abas  Tab/Shift+Tab navegar  ↑↓ selecionar  ? ajuda  q sair");
    r
}

/// What a Share's state is called in the list.
pub open spec fn share_state(s: Status) -> Chars {
    if !s.root_available {
        "INDISPONÍVEL"@
    } else if s.share.enabled {
        "ATIVO"@
    } else {
        "PAUSADO"@
    }
}

/// A Share in the list.
pub open spec fn share_line(s: Status) -> Chars {
    s.share@.name + "\n"@ + share_state(s) + " · "@ + mode_shown(s.share.mode) + " · "@ + decimal(
        s.conflicts@.len(),
    ) + " conf."@
}

fn share_entry(s: &Status) -> (r: String)
    ensures
        r@ == share_line(*s),
{
    let mut r = s.share.name.clone();
    r.append("\n");
    r.append(
        if !s.root_available {
            "INDISPONÍVEL"
        } else if s.share.enabled {
            "ATIVO"
        } else {
            "PAUSADO"
        },
    );
    r.append(" · ");
    r.append(mode_label(s.share.mode));
    r.append(" · ");
    let n = number(s.conflicts.len() as u64);
    r.append(n.as_str());
    r.append(" conf.");
    r
}

/// The list of Shares.
pub fn share_lines(shares: &Vec<Status>) -> (r: Vec<String>)
    ensures
        shares@.len() == 0 ==> views(r@)
            == seq!["Nenhum Share\nUse a para criar a primeira rota."@],
        shares@.len() > 0 ==> views(r@) == shares@.map_values(|s: Status| share_line(s)),
{
    let mut r: Vec<String> = Vec::new();
    if shares.len() == 0 {
        r.push("Nenhum Share\nUse a para criar a primeira rota.".to_string());
        assert(views(r@) =~= seq!["Nenhum Share\nUse a para criar a primeira rota."@]);
        return r;
    }
    let ghost all = shares@.map_values(|s: Status| share_line(s));
    let mut i: usize = 0;
    assert(views(r@) =~= all.take(0));
    while i < shares.len()
        invariant
            i <= shares@.len(),
            all == shares@.map_values(|s: Status| share_line(s)),
            views(r@) == all.take(i as int),
        decreases shares@.len() - i,
    {
        let line = share_entry(&shares[i]);
        proof {
            lemma_views_push(r@, line);
            assert(all.take(i + 1) =~= all.take(i as int).push(all[i as int]));
        }
        r.push(line);
        i = i + 1;
    }
    assert(all.take(i as int) =~= all);
    r
}

/// A request in the list.
pub open spec fn request_line(q: RequestView) -> Chars {
    q.name + "\nPENDENTE · "@ + mode_shown(q.mode)
}

/// The list of requests.
pub fn request_lines(requests: &Vec<ShareRequest>) -> (r: Vec<String>)
    ensures
        requests@.len() == 0 ==> views(r@) == seq!["Nenhuma solicitação recebida"@],
        requests@.len() > 0 ==> views(r@) == requests@.map_values(
            |q: ShareRequest| request_line(q@),
        ),
{
    let mut r: Vec<String> = Vec::new();
    if requests.len() == 0 {
        r.push("Nenhuma solicitação recebida".to_string());
        assert(views(r@) =~= seq!["Nenhuma solicitação recebida"@]);
        return r;
    }
    let ghost all = requests@.map_values(|q: ShareRequest| request_line(q@));
    let mut i: usize = 0;
    assert(views(r@) =~= all.take(0));
    while i < requests.len()
        invariant
            i <= requests@.len(),
            all == requests@.map_values(|q: ShareRequest| request_line(q@)),
            views(r@) == all.take(i as int),
        decreases requests@.len() - i,
    {
        let mut line = requests[i].name.clone();
        line.append("\nPENDENTE · ");
        line.append(mode_label(requests[i].mode));
        proof {
            lemma_views_push(r@, line);
            assert(all.take(i + 1) =~= all.take(i as int).push(all[i as int]));
        }
        r.push(line);
        i = i + 1;
    }
    assert(all.take(i as int) =~= all);
    r
}

/// What is shown of a request.
pub open spec fn request_words(q: RequestView) -> Chars {
    "Nome\n"@ + q.name + "\n\nEstado\nPENDENTE\n\nModo\n"@ + mode_shown(q.mode)
        + "\n\nIdentificador\n"@ + shortened(q.request_id)
        + "\n\nSolicitações enviadas pelo Android podem ser canceladas no próprio aparelho. Rejeições ficam registradas até os dois lados convergirem."@
}

/// What is shown of the request that is selected.
pub fn request_detail(request: Option<&ShareRequest>) -> (r: String)
    ensures
        r@ == match request {
            Some(q) => request_words(q@),
            None =>
                "Aguardando solicitações.\n\nEnviadas: administradas no Android, onde podem ser canceladas antes da aceitação."@,
        },
{
    match request {
        None => {
            "Aguardando solicitações.\n\nEnviadas: administradas no Android, onde podem ser canceladas antes da aceitação.".to_string()
        },
        Some(q) => {
            let mut r = "Nome\n".to_string();
            r.append(q.name.as_str());
            r.append("\n\nEstado\nPENDENTE\n\nModo\n");
            r.append(mode_label(q.mode));
            r.append("\n\nIdentificador\n");
            let id = short_id(q.request_id.as_str());
            r.append(id.as_str());
            r.append(
                "\n\nSolicitações enviadas pelo Android podem ser canceladas no próprio aparelho. Rejeições ficam registradas até os dois lados convergirem.",
            );
            r
        },
    }
}

/// The first conflicts of a Share, six at most.
pub open spec fn conflict_words(conflicts: Seq<Chars>) -> Chars {
    if conflicts.len() == 0 {
        "nenhum"@
    } else {
        joined(
            conflicts.take(
                if conflicts.len() < 6 {
                    conflicts.len() as int
                } else {
                    6
                },
            ),
            "\n  "@,
        )
    }
}

fn first_conflicts(conflicts: &Vec<String>) -> (r: String)
    ensures
        r@ == conflict_words(views(conflicts@)),
{
    if conflicts.len() == 0 {
        return "nenhum".to_string();
    }
    let end: usize = if conflicts.len() < 6 {
        conflicts.len()
    } else {
        6
    };
    let ghost all = views(conflicts@);
    let mut first: Vec<String> = Vec::new();
    let mut i: usize = 0;
    assert(views(first@) =~= all.take(0));
    while i < end
        invariant
            i <= end <= conflicts@.len(),
            all == views(conflicts@),
            views(first@) == all.take(i as int),
        decreases end - i,
    {
        let text = conflicts[i].clone();
        proof {
            lemma_views_push(first@, text);
            assert(all.take(i + 1) =~= all.take(i as int).push(all[i as int]));
        }
        first.push(text);
        i = i + 1;
    }
    join(&first, "\n  ")
}

/// What is shown of a failure that is remembered.
pub open spec fn error_words(e: StoredErrorView, now: u64) -> Chars {
    moment(Some(e.at), now) + " · "@ + e.operation + "\n"@ + e.message + "\n"@ + match e.resolved_at {
        Some(at) => "resolvido "@ + moment(Some(at), now),
        None => "não resolvido"@,
    }
}

/// What is shown of a Share's last failure.
pub open spec fn failure_words(s: Status, now: u64) -> Chars {
    match error_of(s.last_error) {
        Some(e) => error_words(e, now),
        None => match owned_text(s.error) {
            Some(text) => text,
            None => "nenhum"@,
        },
    }
}

fn failure(s: &Status, now: u64) -> (r: String)
    ensures
        r@ == failure_words(*s, now),
{
    match &s.last_error {
        Some(e) => {
            let mut r = timestamp_label(Some(e.at), now);
            r.append(" · ");
            r.append(e.operation.as_str());
            r.append("\n");
            r.append(e.message.as_str());
            r.append("\n");
            let end = match e.resolved_at {
                Some(at) => {
                    let mut text = "resolvido ".to_string();
                    let t = timestamp_label(Some(at), now);
                    text.append(t.as_str());
                    text
                },
                None => "não resolvido".to_string(),
            };
            r.append(end.as_str());
            r
        },
        None => {
            match &s.error {
                Some(text) => text.clone(),
                None => "nenhum".to_string(),
            }
        },
    }
}

/// What is shown of a Share.
pub open spec fn share_words(s: Status, now: u64) -> Chars {
    s.share@.name + "\n\nEstado\n"@ + (if s.share.enabled {
        "ativo"@
    } else {
        "pausado"@
    }) + "\n\nRaiz PC\n"@ + s.share@.root + " · "@ + (if s.root_available {
        "disponível"@
    } else {
        "indisponível"@
    }) + "\n\nPasta Android\n"@ + (if s.share.remap_policy is Some {
        "aguardando nova seleção no Android"@
    } else {
        "definida no aparelho (SAF)"@
    }) + "\n\nModo\n"@ + mode_shown(s.share.mode) + "\n\nÚltimo sync\n"@ + moment(s.last_sync, now)
        + "\n\nConflitos ("@ + decimal(s.conflicts@.len()) + ")\n  "@ + conflict_words(
        views(s.conflicts@),
    ) + "\n\nÚltimo erro\n"@ + failure_words(s, now)
}

/// What is shown of the Share that is selected.
pub fn share_detail(status: Option<&Status>, now: u64) -> (r: String)
    ensures
        r@ == match status {
            Some(s) => share_words(*s, now),
            None =>
                "Cada Share liga uma pasta do PC a uma pasta escolhida no Android.\n\nAdicione uma rota para começar; as validações impedem raízes sobrepostas e caminhos inseguros."@,
        },
{
    let s = match status {
        Some(s) => s,
        None => {
            return "Cada Share liga uma pasta do PC a uma pasta escolhida no Android.\n\nAdicione uma rota para começar; as validações impedem raízes sobrepostas e caminhos inseguros.".to_string();
        },
    };
    let mut r = s.share.name.clone();
    r.append("\n\nEstado\n");
    r.append(
        if s.share.enabled {
            "ativo"
        } else {
            "pausado"
        },
    );
    r.append("\n\nRaiz PC\n");
    r.append(s.share.root.as_str());
    r.append(" · ");
    r.append(
        if s.root_available {
            "disponível"
        } else {
            "indisponível"
        },
    );
    r.append("\n\nPasta Android\n");
    r.append(
        if s.share.remap_policy.is_some() {
            "aguardando nova seleção no Android"
        } else {
            "definida no aparelho (SAF)"
        },
    );
    r.append("\n\nModo\n");
    r.append(mode_label(s.share.mode));
    r.append("\n\nÚltimo sync\n");
    let last = timestamp_label(s.last_sync, now);
    r.append(last.as_str());
    r.append("\n\nConflitos (");
    let count = number(s.conflicts.len() as u64);
    r.append(count.as_str());
    r.append(")\n  ");
    let conflicts = first_conflicts(&s.conflicts);
    r.append(conflicts.as_str());
    r.append("\n\nÚltimo erro\n");
    let error = failure(s, now);
    r.append(error.as_str());
    r
}

/// A version in the list.
pub open spec fn version_line(item: RecoveryItem) -> Chars {
    item@.path + "\n"@ + item@.share_name + " · "@ + if item.finished {
        "RESOLVIDO"@
    } else {
        "PENDENTE"@
    }
}

fn version_entry(item: &RecoveryItem) -> (r: String)
    ensures
        r@ == version_line(*item),
{
    let mut r = item.path.clone();
    r.append("\n");
    r.append(item.share_name.as_str());
    r.append(" · ");
    r.append(
        if item.finished {
            "RESOLVIDO"
        } else {
            "PENDENTE"
        },
    );
    r
}

fn is_visible(item: &RecoveryItem, filter: &Option<String>) -> (r: bool)
    ensures
        r == passes(*item, owned_text(*filter)),
{
    match filter {
        None => true,
        Some(id) => same(item.share_id.as_str(), id.as_str()),
    }
}

/// The list of the versions that pass the filter.
pub fn version_lines(ui: &Ui) -> (r: Vec<String>)
    ensures
        ({
            let all = visible(ui.snapshot.recovery@, owned_text(ui.recovery_filter));
            &&& all.len() == 0 ==> views(r@) == seq!["Nenhuma versão neste filtro"@]
            &&& all.len() > 0 ==> views(r@) == all.map_values(|i: RecoveryItem| version_line(i))
        }),
{
    let ghost items = ui.snapshot.recovery@;
    let ghost filter = owned_text(ui.recovery_filter);
    let mut r: Vec<String> = Vec::new();
    let mut i: usize = 0;
    assert(items.take(0) =~= Seq::<RecoveryItem>::empty());
    assert(views(r@) =~= visible(items.take(0), filter).map_values(
        |i: RecoveryItem| version_line(i),
    ));
    while i < ui.snapshot.recovery.len()
        invariant
            i <= ui.snapshot.recovery@.len(),
            items == ui.snapshot.recovery@,
            filter == owned_text(ui.recovery_filter),
            views(r@) == visible(items.take(i as int), filter).map_values(
                |i: RecoveryItem| version_line(i),
            ),
        decreases ui.snapshot.recovery@.len() - i,
    {
        let ghost part = visible(items.take(i as int), filter);
        assert(items.take(i + 1).drop_last() =~= items.take(i as int));
        assert(items.take(i + 1).last() == items[i as int]);
        if is_visible(&ui.snapshot.recovery[i], &ui.recovery_filter) {
            let line = version_entry(&ui.snapshot.recovery[i]);
            proof {
                lemma_views_push(r@, line);
                assert(part.push(items[i as int]).map_values(|i: RecoveryItem| version_line(i))
                    =~= part.map_values(|i: RecoveryItem| version_line(i)).push(
                    version_line(items[i as int]),
                ));
            }
            r.push(line);
        }
        i = i + 1;
    }
    assert(items.take(i as int) =~= items);
    if r.len() == 0 {
        assert(views(r@).len() == 0);
        r.push("Nenhuma versão neste filtro".to_string());
        assert(views(r@) =~= seq!["Nenhuma versão neste filtro"@]);
    }
    r
}

/// The versions of the Shares with a name.
pub open spec fn named(items: Seq<RecoveryItem>, name: Chars) -> Seq<RecoveryItem>
    decreases items.len(),
{
    if items.len() == 0 {
        Seq::empty()
    } else if items.last()@.share_name == name {
        named(items.drop_last(), name).push(items.last())
    } else {
        named(items.drop_last(), name)
    }
}

proof fn lemma_parts_are_smaller(items: Seq<RecoveryItem>, filter: Option<Chars>, name: Chars)
    ensures
        bytes_of(visible(items, filter)) <= bytes_of(items),
        bytes_of(named(items, name)) <= bytes_of(items),
        named(items, name).len() <= items.len(),
    decreases items.len(),
{
    if items.len() > 0 {
        let rest = items.drop_last();
        lemma_parts_are_smaller(rest, filter, name);
        assert(visible(rest, filter).push(items.last()).drop_last() =~= visible(rest, filter));
        assert(named(rest, name).push(items.last()).drop_last() =~= named(rest, name));
    }
}

/// The versions of the Shares with one name together.
pub struct ShareTotal {
    pub name: String,
    pub count: usize,
    pub bytes: u64,
}

/// How many versions there are, and how large.
pub struct Totals {
    pub total: u64,
    pub filtered: u64,
    /// How many versions pass the filter.
    pub shown: usize,
    pub by_share: Vec<ShareTotal>,
}

/// The names of the Shares that have versions.
pub open spec fn version_names(items: Seq<RecoveryItem>) -> Set<Chars> {
    Set::new(|n: Chars| exists|i: int| 0 <= i < items.len() && (#[trigger] items[i])@.share_name == n)
}

/// The totals of each name, in ascending order of the names.
pub open spec fn totals_by_name(t: Seq<ShareTotal>, items: Seq<RecoveryItem>) -> bool {
    &&& lists(t.map_values(|x: ShareTotal| x.name@), version_names(items))
    &&& forall|i: int|
        0 <= i < t.len() ==> (#[trigger] t[i]).count == named(items, t[i].name@).len()
            && t[i].bytes == bytes_of(named(items, t[i].name@))
}

fn total_of(items: &Vec<RecoveryItem>, name: String) -> (r: ShareTotal)
    requires
        bytes_of(items@) <= u64::MAX,
    ensures
        r.name@ == name@,
        r.count == named(items@, name@).len(),
        r.bytes == bytes_of(named(items@, name@)),
{
    let ghost all = items@;
    let mut count: usize = 0;
    let mut bytes: u64 = 0;
    let mut i: usize = 0;
    assert(all.take(0) =~= Seq::<RecoveryItem>::empty());
    while i < items.len()
        invariant
            i <= items@.len(),
            all == items@,
            bytes_of(all) <= u64::MAX,
            count <= i,
            count == named(all.take(i as int), name@).len(),
            bytes == bytes_of(named(all.take(i as int), name@)),
        decreases items@.len() - i,
    {
        proof {
            let part = all.take(i + 1);
            assert(part.drop_last() =~= all.take(i as int));
            assert(part.last() == all[i as int]);
            lemma_bytes_grow(all, i + 1);
            lemma_parts_are_smaller(part, None, name@);
            assert(named(all.take(i as int), name@).push(all[i as int]).drop_last() =~= named(
                all.take(i as int),
                name@,
            ));
        }
        if same(items[i].share_name.as_str(), name.as_str()) {
            count = count + 1;
            bytes = bytes + items[i].bytes;
        }
        i = i + 1;
    }
    assert(all.take(i as int) =~= all);
    ShareTotal { name, count, bytes }
}

fn names_with_versions(items: &Vec<RecoveryItem>) -> (r: Vec<String>)
    ensures
        lists(views(r@), version_names(items@)),
{
    let mut names = StringSet::new();
    let mut i: usize = 0;
    assert(names@ =~= version_names(items@.take(0)));
    while i < items.len()
        invariant
            i <= items@.len(),
            names@ == version_names(items@.take(i as int)),
        decreases items@.len() - i,
    {
        let ghost was = names@;
        names.insert(items[i].share_name.clone());
        proof {
            let part = items@.take(i as int);
            let now = items@.take(i + 1);
            assert forall|n: Chars| #[trigger] names@.contains(n) <==> version_names(now).contains(
                n,
            ) by {
                if was.contains(n) {
                    let k = choose|k: int| 0 <= k < part.len() && (#[trigger] part[k])@.share_name
                        == n;
                    assert(now[k]@.share_name == n);
                }
                if n == items@[i as int]@.share_name {
                    assert(now[i as int]@.share_name == n);
                }
                if version_names(now).contains(n) {
                    let k = choose|k: int| 0 <= k < now.len() && (#[trigger] now[k])@.share_name
                        == n;
                    if k < i {
                        assert(part[k]@.share_name == n);
                    }
                }
            }
            assert(names@ =~= version_names(now));
        }
        i = i + 1;
    }
    assert(items@.take(i as int) =~= items@);
    names.to_list()
}

/// How many versions there are, and how large.
pub fn recovery_totals(ui: &Ui) -> (r: Totals)
    requires
        bytes_of(ui.snapshot.recovery@) <= u64::MAX,
    ensures
        r.total == bytes_of(ui.snapshot.recovery@),
        r.filtered == bytes_of(visible(ui.snapshot.recovery@, owned_text(ui.recovery_filter))),
        r.shown == visible(ui.snapshot.recovery@, owned_text(ui.recovery_filter)).len(),
        totals_by_name(r.by_share@, ui.snapshot.recovery@),
{
    let ghost all = ui.snapshot.recovery@;
    let ghost filter = owned_text(ui.recovery_filter);
    let mut total: u64 = 0;
    let mut filtered: u64 = 0;
    let mut i: usize = 0;
    assert(all.take(0) =~= Seq::<RecoveryItem>::empty());
    while i < ui.snapshot.recovery.len()
        invariant
            i <= ui.snapshot.recovery@.len(),
            all == ui.snapshot.recovery@,
            filter == owned_text(ui.recovery_filter),
            bytes_of(all) <= u64::MAX,
            total == bytes_of(all.take(i as int)),
            filtered == bytes_of(visible(all.take(i as int), filter)),
        decreases ui.snapshot.recovery@.len() - i,
    {
        proof {
            let part = all.take(i + 1);
            assert(part.drop_last() =~= all.take(i as int));
            assert(part.last() == all[i as int]);
            lemma_bytes_grow(all, i + 1);
            lemma_parts_are_smaller(part, filter, Seq::empty());
            assert(visible(all.take(i as int), filter).push(all[i as int]).drop_last() =~= visible(
                all.take(i as int),
                filter,
            ));
        }
        total = total + ui.snapshot.recovery[i].bytes;
        if is_visible(&ui.snapshot.recovery[i], &ui.recovery_filter) {
            filtered = filtered + ui.snapshot.recovery[i].bytes;
        }
        i = i + 1;
    }
    assert(all.take(i as int) =~= all);
    let names = names_with_versions(&ui.snapshot.recovery);
    let mut by_share: Vec<ShareTotal> = Vec::new();
    let mut k: usize = 0;
    while k < names.len()
        invariant
            k <= names@.len(),
            all == ui.snapshot.recovery@,
            bytes_of(all) <= u64::MAX,
            by_share@.len() == k,
            forall|j: int|
                0 <= j < k ==> (#[trigger] by_share@[j]).name@ == names@[j]@ && by_share@[j].count
                    == named(all, by_share@[j].name@).len() && by_share@[j].bytes == bytes_of(
                    named(all, by_share@[j].name@),
                ),
        decreases names@.len() - k,
    {
        let t = total_of(&ui.snapshot.recovery, names[k].clone());
        by_share.push(t);
        k = k + 1;
    }
    assert(by_share@.map_values(|x: ShareTotal| x.name@) =~= views(names@));
    Totals { total, filtered, shown: ui.recovery_len(), by_share }
}

/// Sizes in words.
pub struct SizeWords {
    pub total: String,
    pub filtered: String,
    /// The size of the version that is selected.
    pub item: String,
    /// The size of each entry of [`Totals::by_share`].
    pub by_share: Vec<String>,
}

/// The versions of each name in words.
pub open spec fn by_share_words(t: Seq<ShareTotal>, sizes: Seq<Chars>) -> Seq<Chars> {
    Seq::new(
        t.len(),
        |i: int| t[i].name@ + ": "@ + decimal(t[i].count as nat) + " versões · "@ + sizes[i],
    )
}

/// The versions of each name in words, one on a line.
pub open spec fn aggregate_words(t: Seq<ShareTotal>, sizes: Seq<Chars>) -> Chars {
    if joined(by_share_words(t, sizes), "\n"@).len() == 0 {
        "nenhum"@
    } else {
        joined(by_share_words(t, sizes), "\n"@)
    }
}

fn aggregate(t: &Vec<ShareTotal>, sizes: &Vec<String>) -> (r: String)
    requires
        t@.len() == sizes@.len(),
    ensures
        r@ == aggregate_words(t@, views(sizes@)),
{
    let ghost all = by_share_words(t@, views(sizes@));
    let mut parts: Vec<String> = Vec::new();
    let mut i: usize = 0;
    assert(views(parts@) =~= all.take(0));
    while i < t.len()
        invariant
            i <= t@.len() == sizes@.len(),
            all == by_share_words(t@, views(sizes@)),
            views(parts@) == all.take(i as int),
        decreases t@.len() - i,
    {
        let mut text = t[i].name.clone();
        text.append(": ");
        let n = number(t[i].count as u64);
        text.append(n.as_str());
        text.append(" versões · ");
        text.append(sizes[i].as_str());
        proof {
            assert(views(sizes@)[i as int] == sizes@[i as int]@);
            lemma_views_push(parts@, text);
            assert(all.take(i + 1) =~= all.take(i as int).push(all[i as int]));
        }
        parts.push(text);
        i = i + 1;
    }
    assert(all.take(i as int) =~= all);
    let r = join(&parts, "\n");
    if r.as_str().unicode_len() == 0 {
        return "nenhum".to_string();
    }
    r
}

/// What the filter is called: by the first version that passes it.
pub open spec fn filter_words(items: Seq<RecoveryItem>, filter: Option<Chars>) -> Chars {
    if filter is Some && visible(items, filter).len() > 0 {
        visible(items, filter)[0]@.share_name
    } else {
        "todos os Shares"@
    }
}

fn filter_title(ui: &Ui) -> (r: String)
    ensures
        r@ == filter_words(ui.snapshot.recovery@, owned_text(ui.recovery_filter)),
{
    let ghost all = ui.snapshot.recovery@;
    let ghost filter = owned_text(ui.recovery_filter);
    if ui.recovery_filter.is_none() {
        return "todos os Shares".to_string();
    }
    let mut i: usize = 0;
    assert(all.take(0) =~= Seq::<RecoveryItem>::empty());
    while i < ui.snapshot.recovery.len()
        invariant
            i <= ui.snapshot.recovery@.len(),
            all == ui.snapshot.recovery@,
            filter == owned_text(ui.recovery_filter),
            filter is Some,
            visible(all.take(i as int), filter).len() == 0,
        decreases ui.snapshot.recovery@.len() - i,
    {
        assert(all.take(i + 1).drop_last() =~= all.take(i as int));
        assert(all.take(i + 1).last() == all[i as int]);
        if is_visible(&ui.snapshot.recovery[i], &ui.recovery_filter) {
            proof {
                crate::tui::lemma_visible_prefix(all, i + 1, filter);
                assert(visible(all.take(i + 1), filter)[0] == all[i as int]);
                assert(visible(all, filter)[0] == all[i as int]);
            }
            return ui.snapshot.recovery[i].share_name.clone();
        }
        i = i + 1;
    }
    assert(all.take(i as int) =~= all);
    "todos os Shares".to_string()
}

/// What is shown of the version that is selected, and of all together.
pub open spec fn version_words(
    u: UiView,
    t: Seq<ShareTotal>,
    total: Chars,
    filtered: Chars,
    item: Chars,
    sizes: Seq<Chars>,
) -> Chars {
    let all = u.snapshot.recovery@;
    let shown = visible(all, u.recovery_filter);
    let head = "Filtro\n"@ + filter_words(all, u.recovery_filter) + " · "@ + filtered + " em "@
        + decimal(shown.len());
    match selected_version(u) {
        Some(v) => head + " versões\n\nShare\n"@ + v@.share_name + "\n\nCaminho\n"@ + v@.path
            + "\n\nEstado\n"@ + (if v.finished {
            "resolvido"@
        } else {
            "aguardando decisão"@
        }) + "\n\nBackup disponível\n"@ + yes_or_no(v.backup_available) + "\n\nTamanho\n"@ + item
            + "\n\nID\n"@ + shortened(v@.id) + "\n\nUso total do recovery\n"@ + total + " em "@
            + decimal(all.len()) + " versões\n\nPor Share\n"@ + aggregate_words(t, sizes),
        None => head
            + " versões\n\nO Rowd preserva versões quando uma reconciliação exige decisão. A limpeza é sempre manual e só aceita registros resolvidos.\n\nPor Share\n"@
            + aggregate_words(t, sizes),
    }
}

/// What is shown of the version that is selected, and of all together.
pub fn recovery_detail(ui: &Ui, totals: &Totals, words: &SizeWords) -> (r: String)
    requires
        totals.by_share@.len() == words.by_share@.len(),
        totals.shown == visible(ui.snapshot.recovery@, owned_text(ui.recovery_filter)).len(),
    ensures
        r@ == version_words(
            ui@,
            totals.by_share@,
            words.total@,
            words.filtered@,
            words.item@,
            views(words.by_share@),
        ),
{
    let mut r = "Filtro\n".to_string();
    let title = filter_title(ui);
    r.append(title.as_str());
    r.append(" · ");
    r.append(words.filtered.as_str());
    r.append(" em ");
    let shown = number(totals.shown as u64);
    r.append(shown.as_str());
    let list = aggregate(&totals.by_share, &words.by_share);
    match ui.selected_recovery() {
        Some(v) => {
            r.append(" versões\n\nShare\n");
            r.append(v.share_name.as_str());
            r.append("\n\nCaminho\n");
            r.append(v.path.as_str());
            r.append("\n\nEstado\n");
            r.append(
                if v.finished {
                    "resolvido"
                } else {
                    "aguardando decisão"
                },
            );
            r.append("\n\nBackup disponível\n");
            r.append(yes_no(v.backup_available));
            r.append("\n\nTamanho\n");
            r.append(words.item.as_str());
            r.append("\n\nID\n");
            let id = short_id(v.id.as_str());
            r.append(id.as_str());
            r.append("\n\nUso total do recovery\n");
            r.append(words.total.as_str());
            r.append(" em ");
            let count = number(ui.snapshot.recovery.len() as u64);
            r.append(count.as_str());
            r.append(" versões\n\nPor Share\n");
            r.append(list.as_str());
        },
        None => {
            r.append(
                " versões\n\nO Rowd preserva versões quando uma reconciliação exige decisão. A limpeza é sempre manual e só aceita registros resolvidos.\n\nPor Share\n",
            );
            r.append(list.as_str());
        },
    }
    r
}

/// Whether rounds are traced, in a word.
pub open spec fn trace_word(tracing: bool) -> Chars {
    if tracing {
        "Ligado"@
    } else {
        "Desligado"@
    }
}

/// What is shown of the PC and its phone.
pub open spec fn device_words(d: StatusView, tracing: bool, now: u64) -> Chars {
    if d.configured {
        "Vínculo\n"@ + (if d.paired {
            "Android vinculado"@
        } else {
            "aguardando primeiro vínculo"@
        }) + "\n\nEndereço publicado\n"@ + d.address + "\n\nÚltima conexão\n"@ + moment(
            d.last_connection,
            now,
        ) + "\n\nSincronização\n"@ + (if d.sync_paused {
            "pausada"@
        } else {
            "ativa"@
        }) + "\n\nTrace de desempenho\n"@ + trace_word(tracing) + "\n\nIdentidade do Android\n"@
            + shortened(d.identity) + "\n\nFingerprint SHA-256\n"@ + d.fingerprint
    } else {
        "Dispositivo ainda não configurado.\n\nTrace de desempenho    "@ + trace_word(tracing)
            + "\n\nPressione p, confirme o endereço alcançável na rede local e leia o QR no Android."@
    }
}

/// What is shown of the PC and its phone.
pub fn device_detail(device: &DeviceStatus, tracing: bool, now: u64) -> (r: String)
    ensures
        r@ == device_words(device@, tracing, now),
{
    let trace = if tracing {
        "Ligado"
    } else {
        "Desligado"
    };
    if !device.configured {
        let mut r =
            "Dispositivo ainda não configurado.\n\nTrace de desempenho    ".to_string();
        r.append(trace);
        r.append(
            "\n\nPressione p, confirme o endereço alcançável na rede local e leia o QR no Android.",
        );
        return r;
    }
    let mut r = "Vínculo\n".to_string();
    r.append(
        if device.paired {
            "Android vinculado"
        } else {
            "aguardando primeiro vínculo"
        },
    );
    r.append("\n\nEndereço publicado\n");
    r.append(device.address.as_str());
    r.append("\n\nÚltima conexão\n");
    let last = timestamp_label(device.last_connection, now);
    r.append(last.as_str());
    r.append("\n\nSincronização\n");
    r.append(
        if device.sync_paused {
            "pausada"
        } else {
            "ativa"
        },
    );
    r.append("\n\nTrace de desempenho\n");
    r.append(trace);
    r.append("\n\nIdentidade do Android\n");
    let id = short_id(device.identity.as_str());
    r.append(id.as_str());
    r.append("\n\nFingerprint SHA-256\n");
    r.append(device.fingerprint.as_str());
    r
}

/// A step of connecting in words.
pub open spec fn check_words(c: CheckView) -> Chars {
    "["@ + (if c.ok {
        "OK"@
    } else {
        "FALHA"@
    }) + "] "@ + c.label + "\n    "@ + c.detail
}

/// What is shown of a test of the connection.
pub open spec fn test_words(t: ConnectionTest) -> Chars {
    joined(t.checks@.map_values(|c: ConnectionCheck| check_words(c@)), "\n"@)
        + "\n\nShares disponíveis\n"@ + decimal(t.available_shares as nat) + "/"@ + decimal(
        t.total_shares as nat,
    )
}

/// What is shown of the last test of the connection.
pub fn connection_detail(test: Option<&ConnectionTest>) -> (r: String)
    ensures
        r@ == match test {
            Some(t) => test_words(*t),
            None =>
                "Teste por camadas\n\nPC alcançável\nTCP\nTLS\nAutenticação\nDispositivo reconhecido\nShares disponíveis\n\nUse T para testar, t para alternar o trace e o para abrir o QR compacto no terminal."@,
        },
{
    let t = match test {
        Some(t) => t,
        None => {
            return "Teste por camadas\n\nPC alcançável\nTCP\nTLS\nAutenticação\nDispositivo reconhecido\nShares disponíveis\n\nUse T para testar, t para alternar o trace e o para abrir o QR compacto no terminal.".to_string();
        },
    };
    let ghost all = t.checks@.map_values(|c: ConnectionCheck| check_words(c@));
    let mut parts: Vec<String> = Vec::new();
    let mut i: usize = 0;
    assert(views(parts@) =~= all.take(0));
    while i < t.checks.len()
        invariant
            i <= t.checks@.len(),
            all == t.checks@.map_values(|c: ConnectionCheck| check_words(c@)),
            views(parts@) == all.take(i as int),
        decreases t.checks@.len() - i,
    {
        let check = &t.checks[i];
        let mut text = "[".to_string();
        text.append(
            if check.ok {
                "OK"
            } else {
                "FALHA"
            },
        );
        text.append("] ");
        text.append(check.label.as_str());
        text.append("\n    ");
        text.append(check.detail.as_str());
        proof {
            lemma_views_push(parts@, text);
            assert(all.take(i + 1) =~= all.take(i as int).push(all[i as int]));
        }
        parts.push(text);
        i = i + 1;
    }
    assert(all.take(i as int) =~= all);
    let mut r = join(&parts, "\n");
    r.append("\n\nShares disponíveis\n");
    let available = number(t.available_shares as u64);
    r.append(available.as_str());
    r.append("/");
    let total = number(t.total_shares as u64);
    r.append(total.as_str());
    r
}

/// The page's part of the help.
pub open spec fn help_part(tab: Tab) -> Seq<Chars> {
    seq![
        uppercase(tab_title(tab)),
        joined(page_keys(all_actions(), tab, false), "  ·  "@),
        ""@,
    ]
}

/// The help, line by line.
pub open spec fn help_lines() -> Seq<Chars> {
    seq![
        "Navegação global"@,
        "1..4 abre aba · Tab/Shift+Tab alterna · ↑↓ seleciona · Esc fecha · q sai"@,
        ""@,
    ] + help_part(Tab::Shares) + help_part(Tab::Requests) + help_part(Tab::Recovery) + help_part(
        Tab::Device,
    )
}

fn help_page(lines: &mut Vec<String>, tab: Tab)
    ensures
        views(final(lines)@) == views(old(lines)@) + help_part(tab),
{
    let ghost was = lines@;
    let title = tab.title().to_uppercase();
    let keys = page_help(tab, false, "  ·  ");
    let empty = "".to_string();
    proof {
        lemma_views_push(was, title);
        lemma_views_push(was.push(title), keys);
        lemma_views_push(was.push(title).push(keys), empty);
    }
    lines.push(title);
    lines.push(keys);
    lines.push(empty);
    assert(views(lines@) =~= views(was) + help_part(tab));
}

/// The help.
pub fn help_text() -> (r: String)
    ensures
        r@ == joined(help_lines(), "\n"@),
{
    let mut lines: Vec<String> = vec![
        "Navegação global".to_string(),
        "1..4 abre aba · Tab/Shift+Tab alterna · ↑↓ seleciona · Esc fecha · q sai".to_string(),
        "".to_string(),
    ];
    assert(views(lines@) =~= seq![
        "Navegação global"@,
        "1..4 abre aba · Tab/Shift+Tab alterna · ↑↓ seleciona · Esc fecha · q sai"@,
        ""@,
    ]);
    help_page(&mut lines, Tab::Shares);
    help_page(&mut lines, Tab::Requests);
    help_page(&mut lines, Tab::Recovery);
    help_page(&mut lines, Tab::Device);
    join(&lines, "\n")
}

/// What is shown with a QR code: the code, or how much room it needs.
pub open spec fn qr_words(info: PairingInfo, fits: bool, width: u16, height: u16) -> Chars {
    if fits {
        "Leia no Android\n"@ + info.qr@ + "\nFingerprint SHA-256\n"@ + info.device@.fingerprint
            + "\nSVG privado: "@ + info.qr_image@
    } else {
        "O terminal está pequeno para este QR.\nAmplie para cerca de "@ + decimal(width as nat)
            + " × "@ + decimal(height as nat) + ".\n\nFingerprint SHA-256\n"@
            + info.device@.fingerprint + "\n\nFallback SVG\n"@ + info.qr_image@
    }
}

/// What is shown with a QR code: the code, or how much room it needs.
pub fn qr_text(info: &PairingInfo, fits: bool, width: u16, height: u16) -> (r: String)
    ensures
        r@ == qr_words(*info, fits, width, height),
{
    if fits {
        let mut r = "Leia no Android\n".to_string();
        r.append(info.qr.as_str());
        r.append("\nFingerprint SHA-256\n");
        r.append(info.device.fingerprint.as_str());
        r.append("\nSVG privado: ");
        r.append(info.qr_image.as_str());
        return r;
    }
    let mut r = "O terminal está pequeno para este QR.\nAmplie para cerca de ".to_string();
    let w = number(width as u64);
    r.append(w.as_str());
    r.append(" × ");
    let h = number(height as u64);
    r.append(h.as_str());
    r.append(".\n\nFingerprint SHA-256\n");
    r.append(info.device.fingerprint.as_str());
    r.append("\n\nFallback SVG\n");
    r.append(info.qr_image.as_str());
    r
}

/// An answer as it is shown: a secret shows its length only.
pub open spec fn shown_value(value: Chars, secret: bool) -> Chars {
    if secret {
        Seq::new(value.len(), |i: int| '•')
    } else {
        value
    }
}

/// What a dialog shows.
pub open spec fn input_words(input: InputView) -> Chars {
    input.hint + "\n\n> "@ + shown_value(input.value, input.secret)
        + "\n\nEnter confirma · Esc cancela"@
}

/// What a dialog shows.
pub fn input_text(input: &InputDialog) -> (r: String)
    ensures
        r@ == input_words(input@),
{
    let mut r = input.hint.clone();
    r.append("\n\n> ");
    if input.secret {
        let size: usize = input.value.as_str().unicode_len();
        let mut dots = String::new();
        let mut i: usize = 0;
        assert(dots@ =~= Seq::new(0, |k: int| '•'));
        while i < size
            invariant
                i <= size,
                dots@ == Seq::new(i as nat, |k: int| '•'),
            decreases size - i,
        {
            dots.push('•');
            i = i + 1;
            assert(dots@ =~= Seq::new(i as nat, |k: int| '•'));
        }
        r.append(dots.as_str());
    } else {
        r.append(input.value.as_str());
    }
    r.append("\n\nEnter confirma · Esc cancela");
    r
}

/// Two secrets of the same length look alike.
pub proof fn law_secrets_are_not_shown(a: InputView, b: InputView)
    requires
        a.secret,
        b.secret,
        a.hint == b.hint,
        a.value.len() == b.value.len(),
    ensures
        input_words(a) == input_words(b),
{
    assert(shown_value(a.value, true) =~= shown_value(b.value, true));
}

/// Where a dialog stands: higher when its answer has several lines.
pub fn input_popup(area: Area, input: &InputDialog) -> (r: Area)
    requires
        on_screen(area),
    ensures
        r == centre(
            area,
            76,
            if input.value@.contains('\n') {
                16
            } else {
                9
            },
        ),
{
    let chars = chars_of(input.value.as_str());
    let mut lines = false;
    let mut i: usize = 0;
    while i < chars.len()
        invariant
            i <= chars@.len(),
            chars@ == input.value@,
            lines <==> exists|k: int| 0 <= k < i && #[trigger] chars@[k] == '\n',
        decreases chars@.len() - i,
    {
        if chars[i] == '\n' {
            lines = true;
        }
        i = i + 1;
    }
    proof {
        if input.value@.contains('\n') {
            let k = choose|k: int| 0 <= k < input.value@.len() && input.value@[k] == '\n';
            assert(chars@[k] == '\n');
        }
        if lines {
            let k = choose|k: int| 0 <= k < i && #[trigger] chars@[k] == '\n';
            assert(input.value@[k] == '\n');
        }
    }
    centered(
        area,
        76,
        if lines {
            16
        } else {
            9
        },
    )
}

/// The conflicts of all Shares are those of each of them together.
pub proof fn law_conflicts_add_up(a: Seq<Status>, b: Seq<Status>, s: Status)
    ensures
        conflict_count(a + b) == conflict_count(a) + conflict_count(b),
        conflict_count(seq![s]) == s.conflicts@.len(),
    decreases b.len(),
{
    let one = seq![s];
    assert(one.drop_last() =~= Seq::empty());
    assert(conflict_count(one.drop_last()) == 0);
    if b.len() == 0 {
        assert(a + b =~= a);
    } else {
        law_conflicts_add_up(a, b.drop_last(), s);
        assert((a + b).drop_last() =~= a + b.drop_last());
        assert((a + b).last() == b.last());
    }
}

} // verus!
