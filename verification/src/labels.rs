//! Words for values: how modes, times, identities and keys are shown, and how
//! a person's words are read.

use crate::config::{RemapPolicy, SyncMode};
use crate::sync::since;
use crate::text::{
    chars_of, decimal, ends, lemma_views_push, number, same, split, string_of, strip_suffix, trim,
    trimmed, views, pieces, Chars,
};
use vstd::prelude::*;

verus! {

/// What a person typed wrong.
#[derive(Clone, Copy, Debug, PartialEq, Eq, Structural)]
pub enum FormError {
    Mode,
    Policy,
    /// The fields of a form are not as many as it has.
    Fields,
    NoName,
    NoFolder,
    NoLocalFolder,
    NoDestination,
    NoPath,
    /// A confirmation is not the word that was asked for.
    Token,
    /// Another operation is under way.
    Busy,
    UnknownAction,
    UnknownLevel,
    ShareRequired,
    /// A version is named without its Share.
    ShareWithId,
    ActionRequired,
    OutputRequired,
    Unconfirmed,
}

/// A mode as a person types it.
pub open spec fn mode_word(mode: SyncMode) -> Chars {
    match mode {
        SyncMode::Bidirectional => "bidirectional"@,
        SyncMode::ToAndroid => "to_android"@,
        SyncMode::ToPc => "to_pc"@,
    }
}

/// A mode as a person types it.
pub fn mode_value(mode: SyncMode) -> (r: &'static str)
    ensures
        r@ == mode_word(mode),
{
    match mode {
        SyncMode::Bidirectional => "bidirectional",
        SyncMode::ToAndroid => "to_android",
        SyncMode::ToPc => "to_pc",
    }
}

/// Reads a mode.
pub fn parse_mode(mode: &str) -> (r: Result<SyncMode, FormError>)
    ensures
        match r {
            Ok(m) => mode@ == mode_word(m),
            Err(e) => e == FormError::Mode && forall|m: SyncMode| mode@ != #[trigger] mode_word(m),
        },
{
    if same(mode, "bidirectional") {
        Ok(SyncMode::Bidirectional)
    } else if same(mode, "to_android") {
        Ok(SyncMode::ToAndroid)
    } else if same(mode, "to_pc") {
        Ok(SyncMode::ToPc)
    } else {
        Err(FormError::Mode)
    }
}

/// No two modes are typed alike, so that what is shown can be typed again.
pub proof fn law_modes_differ(a: SyncMode, b: SyncMode)
    ensures
        mode_word(a) == mode_word(b) ==> a == b,
{
    reveal_strlit("bidirectional");
    reveal_strlit("to_android");
    reveal_strlit("to_pc");
    assert("bidirectional"@.len() == 13 && "to_android"@.len() == 10 && "to_pc"@.len() == 5);
}

/// A remapping's policy as a person types it.
pub open spec fn policy_word(policy: RemapPolicy) -> Chars {
    match policy {
        RemapPolicy::Pc => "pc"@,
        RemapPolicy::Android => "android"@,
        RemapPolicy::Compare => "compare"@,
    }
}

/// Reads a remapping's policy.
pub fn parse_policy(policy: &str) -> (r: Result<RemapPolicy, FormError>)
    ensures
        match r {
            Ok(p) => policy@ == policy_word(p),
            Err(e) => e == FormError::Policy && forall|p: RemapPolicy|
                policy@ != #[trigger] policy_word(p),
        },
{
    if same(policy, "pc") {
        Ok(RemapPolicy::Pc)
    } else if same(policy, "android") {
        Ok(RemapPolicy::Android)
    } else if same(policy, "compare") {
        Ok(RemapPolicy::Compare)
    } else {
        Err(FormError::Policy)
    }
}

/// A mode as it is shown.
pub open spec fn mode_shown(mode: SyncMode) -> Chars {
    match mode {
        SyncMode::Bidirectional => "bidirecional"@,
        SyncMode::ToAndroid => "PC → Android"@,
        SyncMode::ToPc => "Android → PC"@,
    }
}

/// A mode as it is shown.
pub fn mode_label(mode: SyncMode) -> (r: &'static str)
    ensures
        r@ == mode_shown(mode),
{
    match mode {
        SyncMode::Bidirectional => "bidirecional",
        SyncMode::ToAndroid => "PC → Android",
        SyncMode::ToPc => "Android → PC",
    }
}

/// How long ago something happened, in the largest unit that has one.
pub open spec fn age(seconds: u64) -> Chars {
    if seconds < 60 {
        "há "@ + decimal(seconds as nat) + "s"@
    } else if seconds < 3600 {
        "há "@ + decimal((seconds / 60) as nat) + "min"@
    } else if seconds < 86_400 {
        "há "@ + decimal((seconds / 3600) as nat) + "h"@
    } else {
        "há "@ + decimal((seconds / 86_400) as nat) + "d"@
    }
}

/// When something happened, as it is shown.
pub open spec fn moment(timestamp: Option<u64>, now: u64) -> Chars {
    match timestamp {
        None => "ainda não"@,
        Some(t) => age(since(now, t)),
    }
}

/// When something happened, as it is shown.
pub fn timestamp_label(timestamp: Option<u64>, now: u64) -> (r: String)
    ensures
        r@ == moment(timestamp, now),
{
    let t = match timestamp {
        None => {
            return "ainda não".to_string();
        },
        Some(t) => t,
    };
    let elapsed: u64 = if now >= t {
        now - t
    } else {
        0
    };
    let (count, unit) = if elapsed < 60 {
        (elapsed, "s")
    } else if elapsed < 3600 {
        (elapsed / 60, "min")
    } else if elapsed < 86_400 {
        (elapsed / 3600, "h")
    } else {
        (elapsed / 86_400, "d")
    };
    let mut r = "há ".to_string();
    let n = number(count);
    r.append(n.as_str());
    r.append(unit);
    r
}

/// A long identity by its first ten and last six characters.
pub open spec fn shortened(value: Chars) -> Chars {
    if value.len() <= 18 {
        value
    } else {
        value.take(10) + "…"@ + value.skip(value.len() - 6)
    }
}

/// A long identity by its first ten and last six characters.
pub fn short_id(value: &str) -> (r: String)
    ensures
        r@ == shortened(value@),
{
    let chars = chars_of(value);
    let size: usize = chars.len();
    if size <= 18 {
        return value.to_string();
    }
    let mut r = string_of(&chars, 0, 10);
    let tail = string_of(&chars, size - 6, size);
    proof {
        assert(chars@.subrange(0, 10) =~= value@.take(10));
        assert(chars@.subrange(size - 6, size as int) =~= value@.skip(size - 6));
    }
    r.append("…");
    r.append(tail.as_str());
    r
}

/// A text that fits into a width; nothing where there is no room at all.
pub open spec fn fitted(value: Chars, width: usize) -> Chars {
    if width < 4 {
        Seq::empty()
    } else if value.len() <= width {
        value
    } else {
        value.take(width - 1) + "…"@
    }
}

/// A text that fits into a width; nothing where there is no room at all.
pub fn truncate(value: &str, width: usize) -> (r: String)
    ensures
        r@ == fitted(value@, width),
{
    if width < 4 {
        let r = String::new();
        assert(r@ =~= Seq::<char>::empty());
        return r;
    }
    let chars = chars_of(value);
    if chars.len() <= width {
        return value.to_string();
    }
    let mut r = string_of(&chars, 0, width - 1);
    assert(chars@.subrange(0, width - 1) =~= value@.take(width - 1));
    r.append("…");
    r
}

/// A cut text takes no more room than there is.
pub proof fn law_cut_text_fits(value: Chars, width: usize)
    ensures
        fitted(value, width).len() <= width,
{
    reveal_strlit("…");
}

/// Yes or no.
pub open spec fn yes_or_no(value: bool) -> Chars {
    if value {
        "sim"@
    } else {
        "não"@
    }
}

/// Yes or no.
pub fn yes_no(value: bool) -> (r: &'static str)
    ensures
        r@ == yes_or_no(value),
{
    if value {
        "sim"
    } else {
        "não"
    }
}

/// An action's label without the word for what it acts upon.
pub open spec fn action_word(label: Chars) -> Chars {
    if ends(label, " Share"@) {
        label.take(label.len() - " Share"@.len())
    } else if ends(label, " solicitação"@) {
        label.take(label.len() - " solicitação"@.len())
    } else if ends(label, " versão"@) {
        label.take(label.len() - " versão"@.len())
    } else {
        label
    }
}

/// An action's label without the word for what it acts upon.
pub fn short_action(label: &str) -> (r: String)
    ensures
        r@ == action_word(label@),
{
    if let Some(r) = strip_suffix(label, " Share") {
        return r;
    }
    if let Some(r) = strip_suffix(label, " solicitação") {
        return r;
    }
    if let Some(r) = strip_suffix(label, " versão") {
        return r;
    }
    label.to_string()
}

/// The last position of a list, if the given one lies behind it.
pub open spec fn clamped(index: int, len: int) -> int {
    if len == 0 {
        0
    } else if index < len {
        index
    } else {
        len - 1
    }
}

/// The last position of a list, if the given one lies behind it.
pub fn clamp_index(index: usize, len: usize) -> (r: usize)
    ensures
        r == clamped(index as int, len as int),
{
    if len == 0 {
        0
    } else if index < len {
        index
    } else {
        len - 1
    }
}

/// The fields of a form, without the white space around them.
pub open spec fn form_fields(value: Chars) -> Seq<Chars> {
    pieces(value, '|').map_values(|p: Chars| trimmed(p))
}

/// The fields of a form; as many as are expected.
pub fn split_fields(value: &str, expected: usize) -> (r: Result<Vec<String>, FormError>)
    ensures
        r is Ok <==> form_fields(value@).len() == expected,
        r is Ok ==> views(r->Ok_0@) == form_fields(value@),
        r is Err ==> r->Err_0 == FormError::Fields,
{
    let parts = split(value, '|');
    let ghost all = form_fields(value@);
    let mut r: Vec<String> = Vec::new();
    let mut i: usize = 0;
    assert(views(r@) =~= all.take(0));
    while i < parts.len()
        invariant
            i <= parts@.len(),
            views(parts@) == pieces(value@, '|'),
            all == form_fields(value@),
            views(r@) == all.take(i as int),
        decreases parts@.len() - i,
    {
        assert(pieces(value@, '|')[i as int] == parts@[i as int]@);
        let field = trim(parts[i].as_str());
        proof {
            lemma_views_push(r@, field);
            assert(all.take(i + 1) =~= all.take(i as int).push(all[i as int]));
        }
        r.push(field);
        i = i + 1;
    }
    assert(all.take(i as int) =~= all);
    assert(parts@.len() == all.len());
    if r.len() != expected {
        return Err(FormError::Fields);
    }
    Ok(r)
}

/// A name, a folder and a mode.
pub struct ShareForm {
    pub name: String,
    pub folder: String,
    pub mode: SyncMode,
}

/// What is wrong with the form of a Share, if anything is.
pub open spec fn form_fault(value: Chars) -> Option<FormError> {
    let f = form_fields(value);
    if f.len() != 3 {
        Some(FormError::Fields)
    } else if f[0].len() == 0 {
        Some(FormError::NoName)
    } else if f[1].len() == 0 {
        Some(FormError::NoFolder)
    } else if forall|m: SyncMode| f[2] != #[trigger] mode_word(m) {
        Some(FormError::Mode)
    } else {
        None
    }
}

/// Reads the form of a Share: its name, its folder and its mode.
pub fn share_form(value: &str) -> (r: Result<ShareForm, FormError>)
    ensures
        match r {
            Ok(f) => form_fault(value@) is None && f.name@ == form_fields(value@)[0] && f.folder@
                == form_fields(value@)[1] && mode_word(f.mode) == form_fields(value@)[2],
            Err(e) => Some(e) == form_fault(value@),
        },
{
    let fields = match split_fields(value, 3) {
        Ok(fields) => fields,
        Err(e) => {
            return Err(e);
        },
    };
    proof {
        assert(fields@.len() == 3);
        assert(form_fields(value@)[0] == fields@[0]@);
        assert(form_fields(value@)[1] == fields@[1]@);
        assert(form_fields(value@)[2] == fields@[2]@);
    }
    if fields[0].as_str().unicode_len() == 0 {
        return Err(FormError::NoName);
    }
    if fields[1].as_str().unicode_len() == 0 {
        return Err(FormError::NoFolder);
    }
    match parse_mode(fields[2].as_str()) {
        Err(e) => Err(e),
        Ok(mode) => {
            assert(mode_word(mode) == form_fields(value@)[2]);
            Ok(ShareForm { name: fields[0].clone(), folder: fields[1].clone(), mode })
        },
    }
}

/// Asks for a word as a confirmation.
pub fn require_token(value: &str, expected: &str) -> (r: Result<(), FormError>)
    ensures
        r is Ok <==> trimmed(value@) == expected@,
        r is Err ==> r->Err_0 == FormError::Token,
{
    let word = trim(value);
    if !same(word.as_str(), expected) {
        return Err(FormError::Token);
    }
    Ok(())
}

/// A text that must not be empty, without the white space around it.
pub fn required(value: &str, missing: FormError) -> (r: Result<String, FormError>)
    ensures
        r is Ok <==> trimmed(value@).len() > 0,
        r is Ok ==> r->Ok_0@ == trimmed(value@),
        r is Err ==> r->Err_0 == missing,
{
    let text = trim(value);
    if text.as_str().unicode_len() == 0 {
        return Err(missing);
    }
    Ok(text)
}

/// What a command about an old version asks for.
#[derive(Clone, Copy, Debug, PartialEq, Eq, Structural)]
pub enum RecoveryCommand {
    List,
    Keep,
    Restore,
    Export,
    Cleanup,
}

/// What a command about old versions asks for, of what it was given.
pub open spec fn recovery_command_of(
    id: bool,
    share: bool,
    action: Option<Chars>,
    output: bool,
) -> Result<RecoveryCommand, FormError> {
    if !id {
        Ok(RecoveryCommand::List)
    } else if !share {
        Err(FormError::ShareWithId)
    } else {
        match action {
            None => Err(FormError::ActionRequired),
            Some(word) => if word == "keep"@ {
                Ok(RecoveryCommand::Keep)
            } else if word == "restore"@ {
                Ok(RecoveryCommand::Restore)
            } else if word == "export"@ {
                if output {
                    Ok(RecoveryCommand::Export)
                } else {
                    Err(FormError::OutputRequired)
                }
            } else if word == "cleanup"@ {
                Ok(RecoveryCommand::Cleanup)
            } else {
                Err(FormError::UnknownAction)
            },
        }
    }
}

/// What a command about old versions asks for.
pub fn recovery_command(id: bool, share: bool, action: &Option<String>, output: bool) -> (r: Result<
    RecoveryCommand,
    FormError,
>)
    ensures
        r == recovery_command_of(id, share, crate::config::owned_text(*action), output),
{
    if !id {
        return Ok(RecoveryCommand::List);
    }
    if !share {
        return Err(FormError::ShareWithId);
    }
    match action {
        None => Err(FormError::ActionRequired),
        Some(word) => {
            if same(word.as_str(), "keep") {
                Ok(RecoveryCommand::Keep)
            } else if same(word.as_str(), "restore") {
                Ok(RecoveryCommand::Restore)
            } else if same(word.as_str(), "export") {
                if output {
                    Ok(RecoveryCommand::Export)
                } else {
                    Err(FormError::OutputRequired)
                }
            } else if same(word.as_str(), "cleanup") {
                Ok(RecoveryCommand::Cleanup)
            } else {
                Err(FormError::UnknownAction)
            }
        },
    }
}

/// How much is reset.
#[derive(Clone, Copy, Debug, PartialEq, Eq, Structural)]
pub enum ResetLevel {
    Share,
    Unlink,
    Initial,
    All,
}

/// How much a command resets, of what it was given.
pub open spec fn reset_level_of(confirmed: bool, level: Chars, share: bool) -> Result<
    ResetLevel,
    FormError,
> {
    if !confirmed {
        Err(FormError::Unconfirmed)
    } else if level == "share"@ {
        if share {
            Ok(ResetLevel::Share)
        } else {
            Err(FormError::ShareRequired)
        }
    } else if level == "unlink"@ {
        Ok(ResetLevel::Unlink)
    } else if level == "initial"@ {
        Ok(ResetLevel::Initial)
    } else if level == "all"@ {
        Ok(ResetLevel::All)
    } else {
        Err(FormError::UnknownLevel)
    }
}

/// How much a command resets.
pub fn reset_level(confirmed: bool, level: &str, share: bool) -> (r: Result<ResetLevel, FormError>)
    ensures
        r == reset_level_of(confirmed, level@, share),
{
    if !confirmed {
        return Err(FormError::Unconfirmed);
    }
    if same(level, "share") {
        if share {
            Ok(ResetLevel::Share)
        } else {
            Err(FormError::ShareRequired)
        }
    } else if same(level, "unlink") {
        Ok(ResetLevel::Unlink)
    } else if same(level, "initial") {
        Ok(ResetLevel::Initial)
    } else if same(level, "all") {
        Ok(ResetLevel::All)
    } else {
        Err(FormError::UnknownLevel)
    }
}

/// A long text is shown by its first ten and its last six characters; a short
/// one as it is.
pub proof fn law_shortened_text(value: Chars)
    ensures
        value.len() <= 18 ==> shortened(value) == value,
        value.len() > 18 ==> shortened(value).len() == 17 && (forall|i: int|
            0 <= i < 10 ==> #[trigger] shortened(value)[i] == value[i]) && (forall|i: int|
            0 <= i < 6 ==> #[trigger] shortened(value)[11 + i] == value[value.len() - 6 + i]),
{
    reveal_strlit("…");
}

/// A selection stays inside its list, and stays where it is if it can.
pub proof fn law_selection_stays_inside(index: int, len: int)
    requires
        0 <= index,
        0 <= len,
    ensures
        len > 0 ==> 0 <= clamped(index, len) < len,
        len == 0 ==> clamped(index, len) == 0,
        index < len ==> clamped(index, len) == index,
        index >= len && len > 0 ==> clamped(index, len) == len - 1,
{
}

/// A form is read by its three fields, with the space around them taken away;
/// it is accepted exactly where there is a name, a folder and a known mode.
pub proof fn law_form_is_read(name: Chars, folder: Chars, mode: SyncMode)
    requires
        !name.contains('|'),
        !folder.contains('|'),
        !mode_word(mode).contains('|'),
        trimmed(mode_word(mode)) == mode_word(mode),
    ensures
        ({
            let text = name + seq!['|'] + folder + seq!['|'] + mode_word(mode);
            &&& form_fields(text) == seq![trimmed(name), trimmed(folder), mode_word(mode)]
            &&& form_fault(text) is None <==> trimmed(name).len() > 0 && trimmed(folder).len() > 0
        }),
{
    let word = mode_word(mode);
    let text = name + seq!['|'] + folder + seq!['|'] + word;
    let tail = folder + seq!['|'] + word;
    assert(text =~= name + seq!['|'] + tail);
    assert forall|i: int| 0 <= i < name.len() implies name[i] != '|' by {
        assert(name.contains(name[i]));
    }
    assert forall|i: int| 0 <= i < folder.len() implies folder[i] != '|' by {
        assert(folder.contains(folder[i]));
    }
    assert forall|i: int| 0 <= i < word.len() implies word[i] != '|' by {
        assert(word.contains(word[i]));
    }
    crate::model::lemma_no_separator(name, '|');
    crate::model::lemma_no_separator(folder, '|');
    crate::model::lemma_no_separator(word, '|');
    crate::model::lemma_pieces_concat(folder, word, '|');
    crate::model::lemma_pieces_concat(name, tail, '|');
    assert(pieces(text, '|') =~= seq![name, folder, word]);
    assert(form_fields(text) =~= seq![trimmed(name), trimmed(folder), word]);
}

/// Nothing is reset without a confirmation, and a Share is reset only where one
/// is named.
pub proof fn law_reset_is_confirmed(confirmed: bool, level: Chars, share: bool)
    ensures
        !confirmed ==> reset_level_of(confirmed, level, share) is Err,
        reset_level_of(confirmed, level, share) == Ok::<ResetLevel, FormError>(ResetLevel::Share)
            ==> share && level == "share"@,
        reset_level_of(confirmed, level, share) == Ok::<ResetLevel, FormError>(ResetLevel::Unlink)
            ==> level == "unlink"@,
        reset_level_of(confirmed, level, share) == Ok::<ResetLevel, FormError>(ResetLevel::Initial)
            ==> level == "initial"@,
        reset_level_of(confirmed, level, share) == Ok::<ResetLevel, FormError>(ResetLevel::All)
            ==> level == "all"@,
        confirmed && (level == "unlink"@ || level == "initial"@ || level == "all"@) ==> (level
            == "share"@ || reset_level_of(confirmed, level, share) is Ok),
        confirmed && share && level == "share"@ ==> reset_level_of(confirmed, level, share) is Ok,
{
}

/// A stored version is acted upon only where it and its Share are named and the
/// action is a known one; without a version, all are listed.
pub proof fn law_recovery_is_named(id: bool, share: bool, action: Option<Chars>, output: bool)
    ensures
        !id ==> recovery_command_of(id, share, action, output) == Ok::<RecoveryCommand, FormError>(
            RecoveryCommand::List,
        ),
        id && (!share || action is None) ==> recovery_command_of(id, share, action, output) is Err,
        recovery_command_of(id, share, action, output) == Ok::<RecoveryCommand, FormError>(
            RecoveryCommand::Keep,
        ) ==> action == Some("keep"@),
        recovery_command_of(id, share, action, output) == Ok::<RecoveryCommand, FormError>(
            RecoveryCommand::Restore,
        ) ==> action == Some("restore"@),
        recovery_command_of(id, share, action, output) == Ok::<RecoveryCommand, FormError>(
            RecoveryCommand::Export,
        ) ==> action == Some("export"@) && output,
        recovery_command_of(id, share, action, output) == Ok::<RecoveryCommand, FormError>(
            RecoveryCommand::Cleanup,
        ) ==> action == Some("cleanup"@),
        id && share && (action == Some("keep"@) || action == Some("restore"@))
            ==> recovery_command_of(id, share, action, output) is Ok,
{
}

} // verus!
