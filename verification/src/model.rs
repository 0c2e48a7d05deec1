//! Files, manifests and the invitation that pairs two devices.

use crate::collections::{lists, Duplicate, StringMap, StringSet};
use crate::primitives::{hex_encode, lowercase, sha256, sha256_of, hex_text};
use crate::text::{chars_of, is_control, control, lemma_pieces_shape, pieces, same, split, string_of, views, Chars};
use vstd::prelude::*;
use vstd::utf8::encode_utf8;

verus! {

/// The version of the first invitations, which were JSON objects.
pub const VERSION: u32 = 1;

/// The version of an invitation.
pub const INVITATION_VERSION: u32 = 2;

/// The largest file that is synchronised, in bytes.
pub const MAX_FILE: u64 = 8 * 1024 * 1024 * 1024;

/// How many files a Share may hold.
pub const MAX_FILES: usize = 50_000;

/// What is known of a file: the digest of its content and its size.
#[derive(Clone, Debug, PartialEq, Eq)]
pub struct Entry {
    pub hash: String,
    pub size: u64,
}

/// An [`Entry`] as a mathematical value.
pub struct EntryView {
    pub hash: Chars,
    pub size: u64,
}

impl View for Entry {
    type V = EntryView;

    open spec fn view(&self) -> EntryView {
        EntryView { hash: self.hash@, size: self.size }
    }
}

impl Duplicate for Entry {
    fn duplicate(&self) -> (r: Self) {
        Entry { hash: self.hash.clone(), size: self.size }
    }
}

impl Entry {
    /// Whether two entries agree in digest and size.
    pub fn agrees(&self, other: &Entry) -> (r: bool)
        ensures
            r == (self@ == other@),
    {
        self.size == other.size && same(self.hash.as_str(), other.hash.as_str())
    }
}

/// The files of one side of a Share, by path.
pub type Manifest = StringMap<Entry>;

/// What has to happen to a path.
#[derive(Clone, Copy, Debug, PartialEq, Eq, Structural)]
pub enum Action {
    Nothing,
    ToPc,
    ToAndroid,
    Conflict,
}

/// The action for a path, given the digest at the last agreement and on each
/// side. A missing file is never a deletion: the side that lacks it gets it.
pub open spec fn reconciled(
    base: Option<Chars>,
    pc: Option<Chars>,
    android: Option<Chars>,
) -> Action {
    if pc == android {
        Action::Nothing
    } else if pc is None {
        Action::ToPc
    } else if android is None {
        Action::ToAndroid
    } else if pc == base {
        Action::ToPc
    } else if android == base {
        Action::ToAndroid
    } else {
        Action::Conflict
    }
}

/// An optional string as a mathematical value.
pub open spec fn text_of(s: Option<&str>) -> Option<Chars> {
    match s {
        Some(t) => Some(t@),
        None => None,
    }
}

/// Decides what to do with a path from the three digests known of it.
pub fn reconcile(base: Option<&str>, pc: Option<&str>, android: Option<&str>) -> (r: Action)
    ensures
        r == reconciled(text_of(base), text_of(pc), text_of(android)),
{
    match (pc, android) {
        (None, None) => Action::Nothing,
        (Some(_), None) => Action::ToAndroid,
        (None, Some(_)) => Action::ToPc,
        (Some(a), Some(b)) => {
            if same(a, b) {
                return Action::Nothing;
            }
            match base {
                None => Action::Conflict,
                Some(c) => {
                    if same(a, c) {
                        Action::ToPc
                    } else if same(b, c) {
                        Action::ToAndroid
                    } else {
                        Action::Conflict
                    }
                },
            }
        },
    }
}

/// Both sides after an action: the file that moves replaces the other side's,
/// and a conflict leaves the PC's content on both sides.
pub open spec fn settled(
    action: Action,
    pc: Option<Chars>,
    android: Option<Chars>,
) -> (Option<Chars>, Option<Chars>) {
    match action {
        Action::Nothing => (pc, android),
        Action::ToPc => (android, android),
        Action::ToAndroid => (pc, pc),
        Action::Conflict => (pc, pc),
    }
}

/// Nothing is to be done exactly where both sides agree.
pub proof fn law_reconcile_idle(base: Option<Chars>, pc: Option<Chars>, android: Option<Chars>)
    ensures
        reconciled(base, pc, android) == Action::Nothing <==> pc == android,
{
}

/// A side is only written over where it lacks the file or still holds what
/// both sides last agreed on.
pub proof fn law_reconcile_preserves_edits(
    base: Option<Chars>,
    pc: Option<Chars>,
    android: Option<Chars>,
)
    ensures
        reconciled(base, pc, android) == Action::ToPc ==> android is Some && (pc is None || pc
            == base),
        reconciled(base, pc, android) == Action::ToAndroid ==> pc is Some && (android is None
            || android == base),
        reconciled(base, pc, android) == Action::Conflict ==> pc is Some && android is Some && pc
            != base && android != base,
{
}

/// Exchanging the two sides exchanges the direction of the transfer.
pub proof fn law_reconcile_symmetric(base: Option<Chars>, pc: Option<Chars>, android: Option<Chars>)
    ensures
        reconciled(base, android, pc) == (match reconciled(base, pc, android) {
            Action::ToPc => Action::ToAndroid,
            Action::ToAndroid => Action::ToPc,
            other => other,
        }),
{
}

/// After the action both sides agree, and a second look finds nothing to do.
pub proof fn law_reconcile_converges(base: Option<Chars>, pc: Option<Chars>, android: Option<Chars>)
    ensures
        ({
            let (p, a) = settled(reconciled(base, pc, android), pc, android);
            p == a && forall|later: Option<Chars>| #[trigger]
                reconciled(later, p, a) == Action::Nothing
        }),
{
}

/// No file disappears: what a side holds, it still holds after the action,
/// or holds the other side's content instead.
pub proof fn law_reconcile_never_deletes(
    base: Option<Chars>,
    pc: Option<Chars>,
    android: Option<Chars>,
)
    ensures
        ({
            let (p, a) = settled(reconciled(base, pc, android), pc, android);
            (pc is Some || android is Some) ==> p is Some && a is Some
        }),
{
}

/// A lower-case hexadecimal digit.
pub open spec fn lower_hex(c: char) -> bool {
    '0' <= c <= '9' || 'a' <= c <= 'f'
}

/// The text of a SHA-256 digest: 64 lower-case hexadecimal digits.
pub open spec fn valid_hash(s: Chars) -> bool {
    s.len() == 64 && forall|i: int| 0 <= i < 64 ==> lower_hex(#[trigger] s[i])
}

/// Whether a string is the text of a SHA-256 digest.
pub fn is_hash(hash: &str) -> (r: bool)
    ensures
        r == valid_hash(hash@),
{
    let v = chars_of(hash);
    if v.len() != 64 {
        return false;
    }
    let mut i: usize = 0;
    while i < 64
        invariant
            v@ == hash@,
            v@.len() == 64,
            i <= 64,
            forall|j: int| 0 <= j < i ==> lower_hex(#[trigger] v@[j]),
        decreases 64 - i,
    {
        let c = v[i];
        if !(('0' <= c && c <= '9') || ('a' <= c && c <= 'f')) {
            assert(!lower_hex(v@[i as int]));
            return false;
        }
        i = i + 1;
    }
    true
}

/// Why a path, a manifest or an invitation is refused.
#[derive(Clone, Debug, PartialEq, Eq)]
pub enum ModelError {
    /// Not the text of a SHA-256 digest.
    Hash,
    /// A path that cannot be synchronised.
    Path(PathFault),
    /// More than [`MAX_FILES`] files.
    TooManyFiles,
    /// A file larger than [`MAX_FILE`], by path.
    TooLarge(String),
    /// Two paths that differ in case alone; the second one.
    CaseCollision(String),
    /// A path that is both a file and a directory.
    FileDirectory(String),
}

/// A [`ModelError`] as a mathematical value.
pub enum ModelFault {
    Hash,
    Path(PathFault),
    TooManyFiles,
    TooLarge(Chars),
    CaseCollision(Chars),
    FileDirectory(Chars),
}

impl View for ModelError {
    type V = ModelFault;

    open spec fn view(&self) -> ModelFault {
        match self {
            ModelError::Hash => ModelFault::Hash,
            ModelError::Path(f) => ModelFault::Path(*f),
            ModelError::TooManyFiles => ModelFault::TooManyFiles,
            ModelError::TooLarge(p) => ModelFault::TooLarge(p@),
            ModelError::CaseCollision(p) => ModelFault::CaseCollision(p@),
            ModelError::FileDirectory(p) => ModelFault::FileDirectory(p@),
        }
    }
}

/// What is wrong with a path.
#[derive(Clone, Copy, Debug, PartialEq, Eq, Structural)]
pub enum PathFault {
    /// Empty, or more than 2048 bytes.
    Length,
    /// A component is empty, `.` or `..`.
    Unsafe,
    /// A component is longer than 240 bytes, or ends in a dot or a space.
    Unsupported,
    /// A component holds a control code or one of `\ : * ? " < > |`.
    Characters,
    /// A component is a device name of another system.
    ReservedName,
    /// The path lies in the private directory.
    ReservedPath,
}

/// Refuses what is not the text of a SHA-256 digest.
pub fn validate_hash(hash: &str) -> (r: Result<(), ModelError>)
    ensures
        r is Ok <==> valid_hash(hash@),
        r is Err ==> r->Err_0@ == ModelFault::Hash,
{
    if is_hash(hash) {
        Ok(())
    } else {
        Err(ModelError::Hash)
    }
}

/// A character that no file name may hold.
pub open spec fn barred(c: char) -> bool {
    control(c) || c == '\\' || c == ':' || c == '*' || c == '?' || c == '"' || c == '<' || c == '>'
        || c == '|'
}

/// The upper-case form of an ASCII letter; other characters are kept.
pub open spec fn ascii_upper(c: char) -> char {
    if 'a' <= c <= 'z' {
        (c as u32 - 32) as char
    } else {
        c
    }
}

/// The part of a file name before its first dot.
pub open spec fn stem(part: Chars) -> Chars {
    pieces(part, '.')[0]
}

/// A device name of another system, such as `CON` or `LPT1`.
pub open spec fn device_name(s: Chars) -> bool {
    let u = s.map_values(|c: char| ascii_upper(c));
    ||| u == seq!['C', 'O', 'N']
    ||| u == seq!['P', 'R', 'N']
    ||| u == seq!['A', 'U', 'X']
    ||| u == seq!['N', 'U', 'L']
    ||| u.len() == 4 && (u.take(3) == seq!['C', 'O', 'M'] || u.take(3) == seq!['L', 'P', 'T'])
        && '0' <= u[3] <= '9'
}

/// What is wrong with one component of a path.
pub open spec fn part_fault(part: Chars) -> Option<PathFault> {
    if part.len() == 0 || part == seq!['.'] || part == seq!['.', '.'] {
        Some(PathFault::Unsafe)
    } else if encode_utf8(part).len() > 240 || part.last() == '.' || part.last() == ' ' {
        Some(PathFault::Unsupported)
    } else if exists|i: int| 0 <= i < part.len() && barred(#[trigger] part[i]) {
        Some(PathFault::Characters)
    } else if device_name(stem(part)) {
        Some(PathFault::ReservedName)
    } else {
        None
    }
}

/// The fault of the first component that has one.
pub open spec fn first_part_fault(parts: Seq<Chars>) -> Option<PathFault>
    decreases parts.len(),
{
    if parts.len() == 0 {
        None
    } else if part_fault(parts[0]) is Some {
        part_fault(parts[0])
    } else {
        first_part_fault(parts.drop_first())
    }
}

/// What is wrong with a path, if anything.
pub open spec fn path_fault(path: Chars) -> Option<PathFault> {
    if path.len() == 0 || encode_utf8(path).len() > 2048 {
        Some(PathFault::Length)
    } else if first_part_fault(pieces(path, '/')) is Some {
        first_part_fault(pieces(path, '/'))
    } else if pieces(path, '/')[0] == seq!['.', 'r', 'o', 'w', 'd'] {
        Some(PathFault::ReservedPath)
    } else {
        None
    }
}

/// The upper-case form of an ASCII letter.
fn to_ascii_upper(c: char) -> (r: char)
    ensures
        r == ascii_upper(c),
{
    if 'a' <= c && c <= 'z' {
        ((c as u8) - 32) as char
    } else {
        c
    }
}

/// Where the first `c` of a text stands, or its length.
fn position(v: &Vec<char>, c: char) -> (r: usize)
    ensures
        r <= v@.len(),
        r < v@.len() ==> v@[r as int] == c,
        forall|i: int| 0 <= i < r ==> v@[i] != c,
{
    let mut i: usize = 0;
    while i < v.len() && v[i] != c
        invariant
            i <= v@.len(),
            forall|j: int| 0 <= j < i ==> v@[j] != c,
        decreases v@.len() - i,
    {
        i = i + 1;
    }
    i
}

/// The first piece reaches to the first separator.
proof fn lemma_first_piece(s: Chars, sep: char, n: int)
    requires
        0 <= n <= s.len(),
        n < s.len() ==> s[n] == sep,
        forall|i: int| 0 <= i < n ==> s[i] != sep,
    ensures
        pieces(s, sep)[0] == s.take(n),
    decreases s.len(),
{
    lemma_pieces_shape(s, sep);
    if s.len() == 0 {
        assert(s.take(n) =~= Seq::<char>::empty());
    } else if n == s.len() {
        lemma_first_piece(s.drop_last(), sep, n - 1);
        lemma_pieces_shape(s.drop_last(), sep);
        lemma_no_separator(s.drop_last(), sep);
        let p = pieces(s.drop_last(), sep);
        assert(p.last() == p[0]);
        assert(s.drop_last().take(n - 1).push(s.last()) =~= s.take(n));
    } else if n == s.len() - 1 {
        lemma_first_piece(s.drop_last(), sep, n);
        lemma_pieces_shape(s.drop_last(), sep);
        assert(s.drop_last().take(n) =~= s.take(n));
    } else {
        lemma_first_piece(s.drop_last(), sep, n);
        lemma_pieces_shape(s.drop_last(), sep);
        lemma_some_separator(s.drop_last(), sep, n);
        assert(s.drop_last().take(n) =~= s.take(n));
    }
}

/// A text without the separator is its only piece.
pub proof fn lemma_no_separator(s: Chars, sep: char)
    requires
        forall|i: int| 0 <= i < s.len() ==> s[i] != sep,
    ensures
        pieces(s, sep) == seq![s],
    decreases s.len(),
{
    if s.len() > 0 {
        lemma_no_separator(s.drop_last(), sep);
        assert(s.drop_last().push(s.last()) =~= s);
        assert(pieces(s, sep) =~= seq![s]);
    } else {
        assert(s =~= Seq::<char>::empty());
        assert(pieces(s, sep) =~= seq![s]);
    }
}

proof fn lemma_some_separator(s: Chars, sep: char, n: int)
    requires
        0 <= n < s.len(),
        s[n] == sep,
    ensures
        pieces(s, sep).len() >= 2,
    decreases s.len(),
{
    lemma_pieces_shape(s.drop_last(), sep);
    if n < s.len() - 1 {
        lemma_some_separator(s.drop_last(), sep, n);
    }
}

/// Whether a name is a device name of another system.
fn is_device_name(v: &Vec<char>, n: usize) -> (r: bool)
    requires
        n <= v@.len(),
    ensures
        r == device_name(v@.take(n as int)),
{
    let ghost u = v@.take(n as int).map_values(|c: char| ascii_upper(c));
    assert(u.len() == n);
    if n < 3 || n > 4 {
        proof {
            assert(seq!['C', 'O', 'N'].len() == 3 && seq!['P', 'R', 'N'].len() == 3);
            assert(seq!['A', 'U', 'X'].len() == 3 && seq!['N', 'U', 'L'].len() == 3);
        }
        return false;
    }
    let a = to_ascii_upper(v[0]);
    let b = to_ascii_upper(v[1]);
    let c = to_ascii_upper(v[2]);
    if n == 3 {
        let r = (a == 'C' && b == 'O' && c == 'N') || (a == 'P' && b == 'R' && c == 'N') || (a
            == 'A' && b == 'U' && c == 'X') || (a == 'N' && b == 'U' && c == 'L');
        proof {
            assert(u =~= seq![a, b, c]);
            if u == seq!['C', 'O', 'N'] || u == seq!['P', 'R', 'N'] || u == seq!['A', 'U', 'X'] || u
                == seq!['N', 'U', 'L'] {
                assert(u[0] == a && u[1] == b && u[2] == c);
            }
        }
        return r;
    }
    let d = to_ascii_upper(v[3]);
    let r = ((a == 'C' && b == 'O' && c == 'M') || (a == 'L' && b == 'P' && c == 'T')) && '0' <= d
        && d <= '9';
    proof {
        assert(u =~= seq![a, b, c, d]);
        assert(u.take(3) =~= seq![a, b, c]);
        if u.take(3) == seq!['C', 'O', 'M'] || u.take(3) == seq!['L', 'P', 'T'] {
            assert(u.take(3)[0] == a && u.take(3)[1] == b && u.take(3)[2] == c);
        }
    }
    r
}

/// What is wrong with one component of a path.
fn check_part(part: &str) -> (r: Option<PathFault>)
    ensures
        r == part_fault(part@),
{
    let v = chars_of(part);
    let n: usize = v.len();
    let size: usize = part.as_bytes().len();
    if n == 0 || (n == 1 && v[0] == '.') || (n == 2 && v[0] == '.' && v[1] == '.') {
        proof {
            if n == 1 {
                assert(part@ =~= seq!['.']);
            } else if n == 2 {
                assert(part@ =~= seq!['.', '.']);
            }
        }
        return Some(PathFault::Unsafe);
    }
    if size > 240 || v[n - 1] == '.' || v[n - 1] == ' ' {
        return Some(PathFault::Unsupported);
    }
    let mut i: usize = 0;
    while i < n
        invariant
            v@ == part@,
            n == v@.len(),
            i <= n,
            n > 0,
            part@ != seq!['.'],
            part@ != seq!['.', '.'],
            encode_utf8(part@).len() <= 240,
            part@.last() != '.',
            part@.last() != ' ',
            forall|j: int| 0 <= j < i ==> !barred(#[trigger] part@[j]),
        decreases n - i,
    {
        let c = v[i];
        if is_control(c) || c == '\\' || c == ':' || c == '*' || c == '?' || c == '"' || c == '<'
            || c == '>' || c == '|' {
            assert(barred(part@[i as int]));
            return Some(PathFault::Characters);
        }
        i = i + 1;
    }
    let end = position(&v, '.');
    proof {
        lemma_first_piece(part@, '.', end as int);
    }
    if is_device_name(&v, end) {
        Some(PathFault::ReservedName)
    } else {
        None
    }
}

/// Refuses a path that cannot be synchronised to both systems.
pub fn validate_path(path: &str) -> (r: Result<(), ModelError>)
    ensures
        r is Ok <==> path_fault(path@) is None,
        r is Err ==> r->Err_0@ == ModelFault::Path(path_fault(path@)->0),
{
    let size: usize = path.as_bytes().len();
    if path.is_empty() || size > 2048 {
        return Err(ModelError::Path(PathFault::Length));
    }
    let parts = split(path, '/');
    proof {
        lemma_pieces_shape(path@, '/');
    }
    let ghost all = pieces(path@, '/');
    let mut i: usize = 0;
    assert(all.skip(0) =~= all);
    while i < parts.len()
        invariant
            all == views(parts@),
            all == pieces(path@, '/'),
            i <= parts@.len(),
            path@.len() > 0,
            encode_utf8(path@).len() <= 2048,
            first_part_fault(all) == first_part_fault(all.skip(i as int)),
        decreases parts@.len() - i,
    {
        proof {
            assert(all.skip(i as int)[0] == parts@[i as int]@);
            assert(all.skip(i as int).drop_first() =~= all.skip(i + 1));
        }
        match check_part(parts[i].as_str()) {
            Some(fault) => {
                return Err(ModelError::Path(fault));
            },
            None => {},
        }
        i = i + 1;
    }
    assert(all[0] == parts@[0]@);
    if same(parts[0].as_str(), ".rowd") {
        proof {
            reveal_strlit(".rowd");
            assert(".rowd"@ =~= seq!['.', 'r', 'o', 'w', 'd']);
        }
        return Err(ModelError::Path(PathFault::ReservedPath));
    }
    proof {
        reveal_strlit(".rowd");
        assert(".rowd"@ =~= seq!['.', 'r', 'o', 'w', 'd']);
    }
    Ok(())
}

/// `file` would have to be a directory for `path` to exist.
pub open spec fn holds_below(file: Chars, path: Chars) -> bool {
    file.len() < path.len() && path.take(file.len() as int) == file && path[file.len() as int] == '/'
}

/// Whether some key of the map would have to be a directory for `path`.
fn blocked<V: View>(files: &StringMap<V>, path: &str) -> (r: bool)
    ensures
        r == exists|k: Chars| #[trigger] files@.dom().contains(k) && holds_below(k, path@),
{
    let v = chars_of(path);
    let mut i: usize = 0;
    while i < v.len()
        invariant
            v@ == path@,
            i <= v@.len(),
            forall|k: Chars| #[trigger]
                files@.dom().contains(k) && holds_below(k, path@) ==> k.len() >= i,
        decreases v@.len() - i,
    {
        if v[i] == '/' {
            let prefix = string_of(&v, 0, i);
            assert(prefix@ =~= path@.take(i as int));
            if files.contains(prefix.as_str()) {
                assert(holds_below(prefix@, path@));
                return true;
            }
        }
        proof {
            assert forall|k: Chars| #[trigger]
                files@.dom().contains(k) && holds_below(k, path@) implies k.len() >= i + 1 by {
                if k.len() == i {
                    assert(path@[i as int] == '/');
                    assert(k == path@.take(i as int));
                }
            }
        }
        i = i + 1;
    }
    false
}

/// What is wrong with the `i`-th file of a manifest.
pub open spec fn entry_fault(order: Seq<Chars>, files: Map<Chars, EntryView>, i: int) -> Option<
    ModelFault,
> {
    let path = order[i];
    if path_fault(path) is Some {
        Some(ModelFault::Path(path_fault(path)->0))
    } else if !valid_hash(files[path].hash) {
        Some(ModelFault::Hash)
    } else if files[path].size > MAX_FILE {
        Some(ModelFault::TooLarge(path))
    } else if exists|j: int| 0 <= j < i && lowercase(#[trigger] order[j]) == lowercase(path) {
        Some(ModelFault::CaseCollision(path))
    } else if exists|k: Chars| #[trigger] files.dom().contains(k) && holds_below(k, path) {
        Some(ModelFault::FileDirectory(path))
    } else {
        None
    }
}

/// The fault of the first file, from the `i`-th on, that has one.
pub open spec fn first_entry_fault(order: Seq<Chars>, files: Map<Chars, EntryView>, i: int) -> Option<
    ModelFault,
>
    decreases order.len() - i,
{
    if i < 0 || i >= order.len() {
        None
    } else if entry_fault(order, files, i) is Some {
        entry_fault(order, files, i)
    } else {
        first_entry_fault(order, files, i + 1)
    }
}

/// What is wrong with a manifest whose paths stand in this order.
pub open spec fn manifest_fault(order: Seq<Chars>, files: Map<Chars, EntryView>) -> Option<
    ModelFault,
> {
    if order.len() > MAX_FILES {
        Some(ModelFault::TooManyFiles)
    } else {
        first_entry_fault(order, files, 0)
    }
}

/// The first thing wrong with a manifest, its paths taken in ascending order.
pub open spec fn manifest_error(files: Map<Chars, EntryView>, e: ModelFault) -> bool {
    exists|order: Seq<Chars>| #[trigger]
        lists(order, files.dom()) && manifest_fault(order, files) == Some(e)
}

/// A manifest that both systems can hold: few enough files, each with a sound
/// path, digest and size, no two paths equal but for case, no path that is a
/// file and a directory.
pub open spec fn valid_manifest(files: Map<Chars, EntryView>) -> bool {
    &&& files.dom().len() <= MAX_FILES
    &&& forall|p: Chars| #[trigger]
        files.dom().contains(p) ==> path_fault(p) is None && valid_hash(files[p].hash)
            && files[p].size <= MAX_FILE
    &&& forall|p: Chars, q: Chars|
        #![trigger files.dom().contains(p), files.dom().contains(q)]
        files.dom().contains(p) && files.dom().contains(q) ==> (lowercase(p) == lowercase(q) ==> p
            == q) && !holds_below(p, q)
}

proof fn lemma_first_entry_fault_none(order: Seq<Chars>, files: Map<Chars, EntryView>, i: int)
    requires
        0 <= i <= order.len(),
    ensures
        first_entry_fault(order, files, i) is None <==> (forall|j: int|
            i <= j < order.len() ==> #[trigger] entry_fault(order, files, j) is None),
    decreases order.len() - i,
{
    if i < order.len() {
        lemma_first_entry_fault_none(order, files, i + 1);
        if first_entry_fault(order, files, i) is None {
            assert forall|j: int| i <= j < order.len() implies #[trigger] entry_fault(
                order,
                files,
                j,
            ) is None by {
                if j > i {
                }
            }
        } else {
            if forall|j: int| i <= j < order.len() ==> #[trigger] entry_fault(order, files, j) is None {
                assert(entry_fault(order, files, i) is None);
            }
        }
    }
}

proof fn lemma_manifest_fault(order: Seq<Chars>, files: Map<Chars, EntryView>)
    requires
        lists(order, files.dom()),
        order.len() == files.dom().len(),
    ensures
        manifest_fault(order, files) is None <==> valid_manifest(files),
{
    lemma_first_entry_fault_none(order, files, 0);
    crate::collections::lemma_ascending_distinct(order);
    if manifest_fault(order, files) is None {
        assert forall|p: Chars| #[trigger] files.dom().contains(p) implies path_fault(p) is None
            && valid_hash(files[p].hash) && files[p].size <= MAX_FILE by {
            assert(order.contains(p));
            let i = choose|i: int| 0 <= i < order.len() && order[i] == p;
            assert(entry_fault(order, files, i) is None);
        }
        assert forall|p: Chars, q: Chars|
            #![trigger files.dom().contains(p), files.dom().contains(q)]
            files.dom().contains(p) && files.dom().contains(q) implies (lowercase(p) == lowercase(q)
            ==> p == q) && !holds_below(p, q) by {
            assert(order.contains(p) && order.contains(q));
            let i = choose|i: int| 0 <= i < order.len() && order[i] == p;
            let j = choose|j: int| 0 <= j < order.len() && order[j] == q;
            assert(entry_fault(order, files, i) is None);
            assert(entry_fault(order, files, j) is None);
            if i < j {
                assert(lowercase(order[i]) != lowercase(q));
            } else if j < i {
                assert(lowercase(order[j]) != lowercase(p));
            }
        }
    }
    if valid_manifest(files) {
        assert forall|i: int| 0 <= i < order.len() implies #[trigger] entry_fault(
            order,
            files,
            i,
        ) is None by {
            assert(order.contains(order[i]));
            assert(files.dom().contains(order[i]));
            assert forall|j: int| 0 <= j < i implies lowercase(#[trigger] order[j]) != lowercase(
                order[i],
            ) by {
                assert(order.contains(order[j]));
                assert(files.dom().contains(order[j]));
            }
        }
    }
}

/// Refuses a manifest that the two systems cannot both hold. Files are looked
/// at in ascending order of their paths, and the first fault is reported.
pub fn validate_manifest(files: &Manifest) -> (r: Result<(), ModelError>)
    ensures
        r is Ok <==> valid_manifest(files@),
        r is Ok <==> manifest_fault(files.order(), files@) is None,
        r is Err ==> Some(r->Err_0@) == manifest_fault(files.order(), files@) && manifest_error(
            files@,
            r->Err_0@,
        ),
{
    let n: usize = files.len();
    proof {
        lemma_manifest_fault(files.order(), files@);
    }
    if n > MAX_FILES {
        return Err(ModelError::TooManyFiles);
    }
    let mut folded = StringSet::new();
    let ghost order = files.order();
    let mut i: usize = 0;
    while i < n
        invariant
            order == files.order(),
            lists(order, files@.dom()),
            n == order.len(),
            n <= MAX_FILES,
            i <= n,
            valid_manifest(files@) <==> manifest_fault(order, files@) is None,
            manifest_fault(order, files@) == first_entry_fault(order, files@, i as int),
            forall|k: Chars| #[trigger]
                folded@.contains(k) <==> exists|j: int|
                    0 <= j < i && lowercase(#[trigger] order[j]) == k,
        decreases n - i,
    {
        let path = files.key_at(i);
        let entry = files.value_at(i);
        match validate_path(path.as_str()) {
            Ok(()) => {},
            Err(e) => {
                return Err(e);
            },
        }
        if !is_hash(entry.hash.as_str()) {
            return Err(ModelError::Hash);
        }
        if entry.size > MAX_FILE {
            return Err(ModelError::TooLarge(path.clone()));
        }
        let low = path.as_str().to_lowercase();
        let ghost before_set = folded@;
        let ghost key = low@;
        let fresh = folded.insert(low);
        if !fresh {
            assert(before_set.contains(key));
            return Err(ModelError::CaseCollision(path.clone()));
        }
        assert(!before_set.contains(key));
        if blocked(files, path.as_str()) {
            return Err(ModelError::FileDirectory(path.clone()));
        }
        proof {
            assert(entry_fault(order, files@, i as int) is None);
            assert forall|k: Chars| #[trigger] folded@.contains(k) <==> exists|j: int|
                0 <= j < i + 1 && lowercase(#[trigger] order[j]) == k by {
                if folded@.contains(k) {
                    if k == key {
                        assert(lowercase(order[i as int]) == k);
                    } else {
                        assert(before_set.contains(k));
                        let j = choose|j: int| 0 <= j < i && lowercase(#[trigger] order[j]) == k;
                        assert(lowercase(order[j]) == k);
                    }
                }
                if exists|j: int| 0 <= j < i + 1 && lowercase(#[trigger] order[j]) == k {
                    let j = choose|j: int| 0 <= j < i + 1 && lowercase(#[trigger] order[j]) == k;
                    if j < i {
                        assert(before_set.contains(k));
                    }
                }
            }
        }
        i = i + 1;
    }
    Ok(())
}

/// The paths of the PC, then those of the phone.
pub open spec fn chain(pc: Seq<Chars>, android: Seq<Chars>) -> Seq<Chars> {
    pc + android
}

/// The `i`-th path differs from an earlier one in case alone.
pub open spec fn clash_at(all: Seq<Chars>, i: int) -> bool {
    exists|j: int|
        0 <= j < i && lowercase(#[trigger] all[j]) == lowercase(all[i]) && all[j] != all[i]
}

/// `folded` is the lower-case form of one of the paths.
pub open spec fn folded_in(all: Seq<Chars>, folded: Chars) -> bool {
    exists|j: int| 0 <= j < all.len() && lowercase(#[trigger] all[j]) == folded
}

/// A folded path that lies below another one.
pub open spec fn nested_in(all: Seq<Chars>, folded: Chars) -> bool {
    folded_in(all, folded) && exists|k: Chars| #[trigger] folded_in(all, k) && holds_below(k, folded)
}

/// Both sides can hold each other's files: no two paths equal but for case,
/// and none that is a file on one side and a directory on the other.
pub open spec fn compatible(pc: Set<Chars>, android: Set<Chars>) -> bool {
    forall|p: Chars, q: Chars|
        #![trigger pc.union(android).contains(p), pc.union(android).contains(q)]
        pc.union(android).contains(p) && pc.union(android).contains(q) ==> (lowercase(p)
            == lowercase(q) ==> p == q) && !holds_below(lowercase(p), lowercase(q))
}

proof fn lemma_compatible(pc: Seq<Chars>, android: Seq<Chars>, p: Set<Chars>, a: Set<Chars>)
    requires
        lists(pc, p),
        lists(android, a),
    ensures
        compatible(p, a) <==> ({
            let all = chain(pc, android);
            &&& forall|i: int| 0 <= i < all.len() ==> !#[trigger] clash_at(all, i)
            &&& forall|f: Chars| !#[trigger] nested_in(all, f)
        }),
{
    let all = chain(pc, android);
    assert forall|x: Chars| p.union(a).contains(x) <==> #[trigger] all.contains(x) by {
        if all.contains(x) {
            let i = choose|i: int| 0 <= i < all.len() && all[i] == x;
            if i < pc.len() {
                assert(pc[i] == x);
                assert(pc.contains(x));
            } else {
                assert(android[i - pc.len()] == x);
                assert(android.contains(x));
            }
        }
        if p.contains(x) {
            assert(pc.contains(x));
            let i = choose|i: int| 0 <= i < pc.len() && pc[i] == x;
            assert(all[i] == x);
        }
        if a.contains(x) {
            assert(android.contains(x));
            let i = choose|i: int| 0 <= i < android.len() && android[i] == x;
            assert(all[i + pc.len()] == x);
        }
    }
    if compatible(p, a) {
        assert forall|i: int| 0 <= i < all.len() implies !#[trigger] clash_at(all, i) by {
            if clash_at(all, i) {
                let j = choose|j: int|
                    0 <= j < i && lowercase(#[trigger] all[j]) == lowercase(all[i]) && all[j]
                        != all[i];
                assert(all.contains(all[j]) && all.contains(all[i]));
                assert(p.union(a).contains(all[j]) && p.union(a).contains(all[i]));
            }
        }
        assert forall|f: Chars| !#[trigger] nested_in(all, f) by {
            if nested_in(all, f) {
                let k = choose|k: Chars| #[trigger] folded_in(all, k) && holds_below(k, f);
                let i = choose|i: int| 0 <= i < all.len() && lowercase(#[trigger] all[i]) == k;
                let j = choose|j: int| 0 <= j < all.len() && lowercase(#[trigger] all[j]) == f;
                assert(all.contains(all[j]) && all.contains(all[i]));
                assert(p.union(a).contains(all[i]) && p.union(a).contains(all[j]));
            }
        }
    }
    if (forall|i: int| 0 <= i < all.len() ==> !#[trigger] clash_at(all, i)) && (forall|f: Chars|
        !#[trigger] nested_in(all, f)) {
        assert forall|x: Chars, y: Chars|
            #![trigger p.union(a).contains(x), p.union(a).contains(y)]
            p.union(a).contains(x) && p.union(a).contains(y) implies (lowercase(x) == lowercase(y)
            ==> x == y) && !holds_below(lowercase(x), lowercase(y)) by {
            assert(all.contains(x) && all.contains(y));
            let i = choose|i: int| 0 <= i < all.len() && all[i] == x;
            let j = choose|j: int| 0 <= j < all.len() && all[j] == y;
            if lowercase(x) == lowercase(y) && x != y {
                if i < j {
                    assert(clash_at(all, j));
                } else {
                    assert(clash_at(all, i));
                }
            }
            assert(folded_in(all, lowercase(x)));
            assert(folded_in(all, lowercase(y)));
            assert(!nested_in(all, lowercase(y)));
        }
    }
}

/// What is reported of paths that two sides cannot both hold: the first that
/// equals an earlier one but for case or, where there is none, the least that
/// is a file and a directory.
pub open spec fn namespace_fault(all: Seq<Chars>, e: ModelFault) -> bool {
    match e {
        ModelFault::CaseCollision(p) => exists|i: int|
            0 <= i < all.len() && #[trigger] clash_at(all, i) && p == all[i] && forall|j: int|
                0 <= j < i ==> !#[trigger] clash_at(all, j),
        ModelFault::FileDirectory(f) => {
            &&& forall|i: int| 0 <= i < all.len() ==> !#[trigger] clash_at(all, i)
            &&& nested_in(all, f)
            &&& forall|g: Chars| #[trigger]
                nested_in(all, g) ==> g == f || crate::text::before(f, g)
        },
        _ => false,
    }
}

/// Refuses two manifests that cannot be merged: the first path that differs
/// from an earlier one in case alone, else the first folded path below another.
pub fn validate_cross_peer_namespace(pc: &Manifest, android: &Manifest) -> (r: Result<
    (),
    ModelError,
>)
    ensures
        r is Ok <==> compatible(pc@.dom(), android@.dom()),
        r is Err ==> namespace_fault(chain(pc.order(), android.order()), r->Err_0@),
{
    let n: usize = pc.len();
    let m: usize = android.len();
    let ghost all = chain(pc.order(), android.order());
    proof {
        lemma_compatible(pc.order(), android.order(), pc@.dom(), android@.dom());
    }
    let mut names: StringMap<String> = StringMap::new();
    let mut i: usize = 0;
    let mut second = false;
    while !second || i < m
        invariant
            n == pc.order().len(),
            m == android.order().len(),
            all == chain(pc.order(), android.order()),
            !second ==> i <= n,
            second ==> i <= m,
            ({
                let seen = if second {
                    n + i
                } else {
                    i as int
                };
                &&& forall|j: int| 0 <= j < seen ==> !#[trigger] clash_at(all, j)
                &&& forall|f: Chars| #[trigger]
                    names@.dom().contains(f) <==> exists|j: int|
                        0 <= j < seen && lowercase(#[trigger] all[j]) == f
                &&& forall|j: int|
                    0 <= j < seen ==> names@[lowercase(#[trigger] all[j])] == all[j]
            }),
            compatible(pc@.dom(), android@.dom()) <==> {
                &&& forall|i: int| 0 <= i < all.len() ==> !#[trigger] clash_at(all, i)
                &&& forall|f: Chars| !#[trigger] nested_in(all, f)
            },
        decreases (if second {
            m - i
        } else {
            n - i + m + 1
        }),
    {
        if !second && i == n {
            second = true;
            i = 0;
        } else {
            let path = if second {
                android.key_at(i).clone()
            } else {
                pc.key_at(i).clone()
            };
            let ghost at: int = if second {
                n + i
            } else {
                i as int
            };
            assert(path@ == all[at]);
            let low = path.as_str().to_lowercase();
            match names.get(low.as_str()) {
                Some(previous) => {
                    if !same(previous.as_str(), path.as_str()) {
                        proof {
                            let j = choose|j: int|
                                0 <= j < at && lowercase(#[trigger] all[j]) == low@;
                            assert(names@[lowercase(all[j])] == all[j]);
                            assert(clash_at(all, at));
                        }
                        return Err(ModelError::CaseCollision(path));
                    }
                    proof {
                        if clash_at(all, at) {
                            let j = choose|j: int|
                                0 <= j < at && lowercase(#[trigger] all[j]) == lowercase(all[at])
                                    && all[j] != all[at];
                            assert(names@[lowercase(all[j])] == all[j]);
                        }
                    }
                },
                None => {
                    proof {
                        if clash_at(all, at) {
                            let j = choose|j: int|
                                0 <= j < at && lowercase(#[trigger] all[j]) == lowercase(all[at])
                                    && all[j] != all[at];
                            assert(names@.dom().contains(low@));
                        }
                    }
                },
            }
            let ghost was = names@;
            let ghost key = low@;
            names.insert(low, path);
            proof {
                assert forall|f: Chars| #[trigger] names@.dom().contains(f) <==> exists|j: int|
                    0 <= j < at + 1 && lowercase(#[trigger] all[j]) == f by {
                    if f == key {
                        assert(lowercase(all[at]) == f);
                    }
                    if was.dom().contains(f) {
                        let j = choose|j: int| 0 <= j < at && lowercase(#[trigger] all[j]) == f;
                        assert(lowercase(all[j]) == f);
                    }
                    if exists|j: int| 0 <= j < at + 1 && lowercase(#[trigger] all[j]) == f {
                        let j = choose|j: int| 0 <= j < at + 1 && lowercase(#[trigger] all[j]) == f;
                        if j < at {
                            assert(was.dom().contains(f));
                        }
                    }
                }
                assert forall|j: int| 0 <= j < at + 1 implies names@[lowercase(#[trigger] all[j])]
                    == all[j] by {
                    if j < at && lowercase(all[j]) == key {
                        assert(was[lowercase(all[j])] == all[j]);
                        assert(!clash_at(all, at));
                    }
                }
            }
            i = i + 1;
        }
    }
    let k: usize = names.len();
    let ghost order = names.order();
    proof {
        assert(all.len() == n + m);
        assert forall|f: Chars| #[trigger] names@.dom().contains(f) <==> folded_in(all, f) by {}
    }
    i = 0;
    while i < k
        invariant
            order == names.order(),
            k == order.len(),
            lists(order, names@.dom()),
            i <= k,
            all == chain(pc.order(), android.order()),
            forall|i: int| 0 <= i < all.len() ==> !#[trigger] clash_at(all, i),
            forall|f: Chars| #[trigger] names@.dom().contains(f) <==> folded_in(all, f),
            forall|j: int| 0 <= j < i ==> !nested_in(all, #[trigger] order[j]),
            compatible(pc@.dom(), android@.dom()) <==> {
                &&& forall|i: int| 0 <= i < all.len() ==> !#[trigger] clash_at(all, i)
                &&& forall|f: Chars| !#[trigger] nested_in(all, f)
            },
        decreases k - i,
    {
        let folded = names.key_at(i);
        if blocked(&names, folded.as_str()) {
            proof {
                let b = choose|b: Chars| #[trigger]
                    names@.dom().contains(b) && holds_below(b, folded@);
                assert(folded_in(all, b));
                assert(nested_in(all, folded@));
                assert forall|g: Chars| #[trigger] nested_in(all, g) implies g == folded@
                    || crate::text::before(folded@, g) by {
                    assert(names@.dom().contains(g));
                    assert(order.contains(g));
                    let j = choose|j: int| 0 <= j < order.len() && order[j] == g;
                    assert(j >= i);
                }
            }
            return Err(ModelError::FileDirectory(folded.clone()));
        }
        proof {
            if nested_in(all, order[i as int]) {
                let b = choose|b: Chars| #[trigger]
                    folded_in(all, b) && holds_below(b, order[i as int]);
                assert(names@.dom().contains(b));
            }
        }
        i = i + 1;
    }
    proof {
        assert forall|f: Chars| !#[trigger] nested_in(all, f) by {
            if nested_in(all, f) {
                assert(names@.dom().contains(f));
                assert(order.contains(f));
                let j = choose|j: int| 0 <= j < order.len() && order[j] == f;
                assert(!nested_in(all, order[j]));
            }
        }
    }
    Ok(())
}

/// Where the phone's version of a conflicting file goes: below a directory
/// named by the digest of the original path and one named by the content.
pub open spec fn conflict_name(path: Chars, hash: Chars) -> Chars {
    "Rowd Conflicts/"@ + hex_text(sha256_of(encode_utf8(path))) + seq!['/'] + hash + seq!['/']
        + pieces(path, '/').last()
}

/// The path under which a conflicting version is kept.
pub fn conflict_path(path: &str, hash: &str) -> (r: String)
    ensures
        r@ == conflict_name(path@, hash@),
        path_fault(path@) is None && valid_hash(hash@) ==> path_fault(r@) is None,
{
    let digest = sha256(path.as_bytes());
    let mut r = String::from_str("Rowd Conflicts/");
    r.append(hex_encode(digest.as_slice()).as_str());
    r.push('/');
    r.append(hash);
    r.push('/');
    let parts = split(path, '/');
    proof {
        lemma_pieces_shape(path@, '/');
        assert(pieces(path@, '/').last() == parts@[parts@.len() - 1]@);
    }
    r.append(parts[parts.len() - 1].as_str());
    proof {
        assert(r@ =~= conflict_name(path@, hash@));
        if path_fault(path@) is None && valid_hash(hash@) {
            law_conflict_path_is_sound(path@, hash@);
        }
    }
    r
}

/// The UTF-8 of a concatenation is the concatenation of the UTF-8.
pub proof fn lemma_utf8_concat(a: Chars, b: Chars)
    ensures
        encode_utf8(a + b) == encode_utf8(a) + encode_utf8(b),
    decreases a.len(),
{
    if a.len() == 0 {
        assert(a + b =~= b);
        assert(encode_utf8(a) + encode_utf8(b) =~= encode_utf8(b));
    } else {
        lemma_utf8_concat(a.drop_first(), b);
        assert((a + b).drop_first() =~= a.drop_first() + b);
        assert(encode_utf8(a + b) =~= encode_utf8(a) + encode_utf8(b));
    }
}

/// Splitting a joined text splits each half.
pub proof fn lemma_pieces_concat(a: Chars, b: Chars, sep: char)
    ensures
        pieces(a + seq![sep] + b, sep) == pieces(a, sep) + pieces(b, sep),
    decreases b.len(),
{
    let s = a + seq![sep] + b;
    lemma_pieces_shape(b, sep);
    if b.len() == 0 {
        assert(s.drop_last() =~= a);
        assert(pieces(s, sep) =~= pieces(a, sep) + pieces(b, sep));
    } else {
        lemma_pieces_concat(a, b.drop_last(), sep);
        lemma_pieces_shape(b.drop_last(), sep);
        assert(s.drop_last() =~= a + seq![sep] + b.drop_last());
        assert(s.last() == b.last());
        let p = pieces(a, sep);
        let q = pieces(b.drop_last(), sep);
        assert((p + q).last() == q.last());
        assert((p + q).drop_last() =~= p + q.drop_last());
        assert(pieces(s, sep) =~= pieces(a, sep) + pieces(b, sep));
    }
}

proof fn lemma_part_faults(parts: Seq<Chars>)
    ensures
        first_part_fault(parts) is None <==> forall|i: int|
            0 <= i < parts.len() ==> part_fault(#[trigger] parts[i]) is None,
    decreases parts.len(),
{
    if parts.len() > 0 {
        lemma_part_faults(parts.drop_first());
        assert forall|i: int| 0 < i < parts.len() implies parts[i] == #[trigger] parts.drop_first()[i
            - 1] by {}
        if first_part_fault(parts) is None {
            assert forall|i: int| 0 <= i < parts.len() implies part_fault(
                #[trigger] parts[i],
            ) is None by {
                if i > 0 {
                    assert(parts[i] == parts.drop_first()[i - 1]);
                }
            }
        }
        if forall|i: int| 0 <= i < parts.len() ==> part_fault(#[trigger] parts[i]) is None {
            assert forall|i: int| 0 <= i < parts.drop_first().len() implies part_fault(
                #[trigger] parts.drop_first()[i],
            ) is None by {
                assert(parts.drop_first()[i] == parts[i + 1]);
            }
        }
    }
}

/// A sound path is relative and stays below its root: it has no empty
/// component, none that climbs, none in the private directory, and no
/// character that either system refuses.
pub proof fn law_sound_path_stays_inside(path: Chars)
    requires
        path_fault(path) is None,
    ensures
        path[0] != '/',
        path.last() != '/',
        pieces(path, '/')[0] != seq!['.', 'r', 'o', 'w', 'd'],
        forall|i: int|
            0 <= i < pieces(path, '/').len() ==> (#[trigger] pieces(path, '/')[i]).len() > 0
                && pieces(path, '/')[i] != seq!['.'] && pieces(path, '/')[i] != seq!['.', '.']
                && forall|j: int|
                0 <= j < pieces(path, '/')[i].len() ==> !barred(#[trigger] pieces(path, '/')[i][j]),
{
    let p = pieces(path, '/');
    lemma_pieces_shape(path, '/');
    lemma_part_faults(p);
    assert forall|i: int| 0 <= i < p.len() implies (#[trigger] p[i]).len() > 0 && p[i] != seq!['.']
        && p[i] != seq!['.', '.'] && forall|j: int|
        0 <= j < p[i].len() ==> !barred(#[trigger] p[i][j]) by {
        assert(part_fault(p[i]) is None);
    }
    if path[0] == '/' {
        lemma_first_piece(path, '/', 0);
        assert(p[0].len() == 0);
    }
    if path.last() == '/' {
        assert(p.last().len() == 0);
        assert(p[p.len() - 1].len() == 0);
    }
}

/// Lower-case hexadecimal digits make a sound component, 64 bytes long.
proof fn lemma_hash_part(h: Chars)
    requires
        valid_hash(h),
    ensures
        part_fault(h) is None,
        encode_utf8(h).len() == 64,
        pieces(h, '/') == seq![h],
{
    assert forall|i: int| 0 <= i < h.len() implies h[i] != '/' && h[i] != '.' && !barred(
        #[trigger] h[i],
    ) by {
        assert(lower_hex(h[i]));
    }
    lemma_no_separator(h, '/');
    lemma_no_separator(h, '.');
    assert(vstd::utf8::is_ascii_chars(h)) by {
        assert forall|i: int| 0 <= i < h.len() implies 0 <= (#[trigger] h[i]) as nat && (
        h[i]) as nat <= 127 by {
            assert(lower_hex(h[i]));
        }
    }
    vstd::utf8::is_ascii_chars_encode_utf8(h);
    assert(h.last() == h[63]);
    assert(lower_hex(h[63]));
    assert(stem(h) == h);
    assert(h.map_values(|c: char| ascii_upper(c)).len() == 64);
    assert(seq!['C', 'O', 'N'].len() == 3 && seq!['P', 'R', 'N'].len() == 3);
    assert(seq!['A', 'U', 'X'].len() == 3 && seq!['N', 'U', 'L'].len() == 3);
    assert(seq!['.'].len() == 1 && seq!['.', '.'].len() == 2);
}

/// The digits of 32 bytes are the text of a digest.
pub proof fn lemma_hex_is_hash(b: Seq<u8>)
    requires
        b.len() == 32,
    ensures
        valid_hash(hex_text(b)),
{
    let t = hex_text(b);
    assert forall|i: int| 0 <= i < 64 implies lower_hex(#[trigger] t[i]) by {
        assert(0 <= i / 2 < 32);
        assert(0 <= b[i / 2] as int / 16 < 16);
        assert(0 <= b[i / 2] as int % 16 < 16);
    }
}

/// The folder for conflicting versions.
spec fn conflict_folder() -> Chars {
    seq!['R', 'o', 'w', 'd', ' ', 'C', 'o', 'n', 'f', 'l', 'i', 'c', 't', 's']
}

proof fn lemma_conflict_folder()
    ensures
        part_fault(conflict_folder()) is None,
        pieces(conflict_folder(), '/') == seq![conflict_folder()],
        forall|i: int| 0 <= i < 14 ==> #[trigger] conflict_folder()[i] != '/',
        encode_utf8(conflict_folder()).len() == 14,
        "Rowd Conflicts/"@ == conflict_folder() + seq!['/'],
{
    reveal_strlit("Rowd Conflicts/");
    let top = conflict_folder();
    assert("Rowd Conflicts/"@ =~= top + seq!['/']);
    assert forall|i: int| 0 <= i < top.len() implies top[i] != '/' && top[i] != '.' && !barred(
        #[trigger] top[i],
    ) by {}
    lemma_no_separator(top, '/');
    lemma_no_separator(top, '.');
    assert(vstd::utf8::is_ascii_chars(top));
    vstd::utf8::is_ascii_chars_encode_utf8(top);
    assert(part_fault(top) is None) by {
        assert(stem(top) == top);
        assert(top.map_values(|c: char| ascii_upper(c)).len() == 14);
        assert(seq!['C', 'O', 'N'].len() == 3 && seq!['P', 'R', 'N'].len() == 3);
        assert(seq!['A', 'U', 'X'].len() == 3 && seq!['N', 'U', 'L'].len() == 3);
        assert(seq!['.'].len() == 1 && seq!['.', '.'].len() == 2);
        assert(top.last() == 's');
    }
}

proof fn lemma_conflict_length(top: Chars, digest: Chars, hash: Chars, name: Chars)
    ensures
        encode_utf8(
            top + seq!['/'] + (digest + seq!['/'] + (hash + seq!['/'] + name)),
        ).len() == encode_utf8(top).len() + encode_utf8(digest).len() + encode_utf8(hash).len()
            + encode_utf8(name).len() + 3,
{
    let slash = seq!['/'];
    assert(vstd::utf8::is_ascii_chars(slash));
    vstd::utf8::is_ascii_chars_encode_utf8(slash);
    lemma_utf8_concat(hash + slash, name);
    lemma_utf8_concat(hash, slash);
    lemma_utf8_concat(digest + slash, hash + slash + name);
    lemma_utf8_concat(digest, slash);
    lemma_utf8_concat(top + slash, digest + slash + (hash + slash + name));
    lemma_utf8_concat(top, slash);
}

/// The name for a conflicting version of a file with a sound path is sound.
pub proof fn law_conflict_path_is_sound(path: Chars, hash: Chars)
    requires
        path_fault(path) is None,
        valid_hash(hash),
        sha256_of(encode_utf8(path)).len() == 32,
    ensures
        path_fault(conflict_name(path, hash)) is None,
{
    let top = conflict_folder();
    let digest = hex_text(sha256_of(encode_utf8(path)));
    let name = pieces(path, '/').last();
    lemma_conflict_folder();
    lemma_hex_is_hash(sha256_of(encode_utf8(path)));
    lemma_hash_part(digest);
    lemma_hash_part(hash);
    lemma_pieces_shape(path, '/');
    lemma_part_faults(pieces(path, '/'));
    assert(part_fault(pieces(path, '/')[pieces(path, '/').len() - 1]) is None);
    assert(part_fault(name) is None);
    assert forall|i: int| 0 <= i < name.len() implies name[i] != '/' by {
        if name[i] == '/' {
            assert(name.contains('/'));
        }
    }
    lemma_no_separator(name, '/');
    let slash = seq!['/'];
    let whole = conflict_name(path, hash);
    assert(whole =~= top + slash + (digest + slash + (hash + slash + name)));
    lemma_pieces_concat(hash, name, '/');
    lemma_pieces_concat(digest, hash + slash + name, '/');
    lemma_pieces_concat(top, digest + slash + (hash + slash + name), '/');
    let parts = pieces(whole, '/');
    assert(parts =~= seq![top, digest, hash, name]);
    lemma_part_faults(parts);
    assert(first_part_fault(parts) is None);
    lemma_conflict_length(top, digest, hash, name);
    assert(encode_utf8(whole).len() <= 14 + 1 + 64 + 1 + 64 + 1 + 240);
    assert(parts[0].len() == 14);
}

/// Two conflicting versions share a name only if their contents and the
/// digests of their paths agree.
pub proof fn law_conflict_path_identity(p: Chars, h: Chars, q: Chars, k: Chars)
    requires
        valid_hash(h),
        valid_hash(k),
        sha256_of(encode_utf8(p)).len() == 32,
        sha256_of(encode_utf8(q)).len() == 32,
        conflict_name(p, h) == conflict_name(q, k),
    ensures
        h == k,
        sha256_of(encode_utf8(p)) == sha256_of(encode_utf8(q)),
{
    reveal_strlit("Rowd Conflicts/");
    let a = conflict_name(p, h);
    let b = conflict_name(q, k);
    let x = hex_text(sha256_of(encode_utf8(p)));
    let y = hex_text(sha256_of(encode_utf8(q)));
    assert("Rowd Conflicts/"@.len() == 15);
    assert(a.subrange(15, 79) =~= x);
    assert(b.subrange(15, 79) =~= y);
    assert(a.subrange(80, 144) =~= h);
    assert(b.subrange(80, 144) =~= k);
    crate::primitives::lemma_hex_round_trip(sha256_of(encode_utf8(p)));
    crate::primitives::lemma_hex_round_trip(sha256_of(encode_utf8(q)));
}

/// A path is one of a Share exactly where it is not too long, each of its parts
/// is a name that both systems can hold, and it does not lead into the
/// library's own folder.
pub proof fn law_sound_path(path: Chars)
    ensures
        path_fault(path) is None <==> path.len() > 0 && encode_utf8(path).len() <= 2048 && pieces(
            path,
            '/',
        )[0] != seq!['.', 'r', 'o', 'w', 'd'] && forall|i: int|
            0 <= i < pieces(path, '/').len() ==> {
                let part = #[trigger] pieces(path, '/')[i];
                &&& part.len() > 0 && part != seq!['.'] && part != seq!['.', '.']
                &&& encode_utf8(part).len() <= 240
                &&& part.last() != '.' && part.last() != ' '
                &&& forall|k: int|
                    0 <= k < part.len() ==> {
                        let c = #[trigger] part[k];
                        &&& !control(c) && c != '\\' && c != ':' && c != '*' && c != '?' && c != '"'
                        &&& c != '<' && c != '>' && c != '|'
                    }
                &&& !device_name(stem(part))
            },
{
    lemma_part_faults(pieces(path, '/'));
    lemma_first_fault(pieces(path, '/'));
    assert forall|i: int| 0 <= i < pieces(path, '/').len() implies (part_fault(
        #[trigger] pieces(path, '/')[i],
    ) is None <==> {
        let part = pieces(path, '/')[i];
        &&& part.len() > 0 && part != seq!['.'] && part != seq!['.', '.']
        &&& encode_utf8(part).len() <= 240
        &&& part.last() != '.' && part.last() != ' '
        &&& forall|k: int|
            0 <= k < part.len() ==> {
                let c = #[trigger] part[k];
                &&& !control(c) && c != '\\' && c != ':' && c != '*' && c != '?' && c != '"'
                &&& c != '<' && c != '>' && c != '|'
            }
        &&& !device_name(stem(part))
    }) by {
        let part = pieces(path, '/')[i];
        if exists|k: int| 0 <= k < part.len() && barred(#[trigger] part[k]) {
            let k = choose|k: int| 0 <= k < part.len() && barred(#[trigger] part[k]);
            assert(barred(part[k]));
        }
        assert forall|k: int| 0 <= k < part.len() && !barred(#[trigger] part[k]) implies {
            let c = part[k];
            &&& !control(c) && c != '\\' && c != ':' && c != '*' && c != '?' && c != '"'
            &&& c != '<' && c != '>' && c != '|'
        } by {}
    }
}

proof fn lemma_first_fault(parts: Seq<Chars>)
    ensures
        first_part_fault(parts) is None <==> forall|i: int|
            0 <= i < parts.len() ==> part_fault(#[trigger] parts[i]) is None,
    decreases parts.len(),
{
    if parts.len() > 0 {
        let rest = parts.drop_first();
        lemma_first_fault(rest);
        if first_part_fault(parts) is None {
            assert forall|i: int| 0 <= i < parts.len() implies part_fault(
                #[trigger] parts[i],
            ) is None by {
                if i > 0 {
                    assert(rest[i - 1] == parts[i]);
                }
            }
        } else if part_fault(parts[0]) is None {
            let i = choose|i: int| 0 <= i < rest.len() && part_fault(#[trigger] rest[i]) is Some;
            assert(parts[i + 1] == rest[i]);
        }
    }
}

/// A manifest is a tree of files: none of them is a folder of another, no two
/// differ in case alone, each has a sound path, the text of a digest and a size
/// of at most eight gibibytes, and there are at most fifty thousand.
pub proof fn law_manifest_is_a_tree(files: Map<Chars, EntryView>, p: Chars, q: Chars, rest: Chars)
    requires
        valid_manifest(files),
        files.dom().contains(p),
    ensures
        !files.dom().contains(p + seq!['/'] + rest),
        files.dom().contains(q) && q != p ==> lowercase(p) != lowercase(q),
        path_fault(p) is None,
        valid_hash(files[p].hash),
        files[p].size <= 8 * 1024 * 1024 * 1024,
        files.dom().len() <= 50_000,
{
    let below = p + seq!['/'] + rest;
    assert(below.take(p.len() as int) =~= p);
    assert(below[p.len() as int] == '/');
    assert(holds_below(p, below));
}

/// Two sides go together where, without regard to case, no file of one stands
/// at a folder of the other and the same name is written the same way.
pub proof fn law_sides_go_together(
    pc: Set<Chars>,
    android: Set<Chars>,
    p: Chars,
    q: Chars,
    rest: Chars,
)
    requires
        pc.contains(p) || android.contains(p),
        pc.contains(q) || android.contains(q),
    ensures
        compatible(pc, android) && p != q ==> lowercase(p) != lowercase(q),
        compatible(pc, android) ==> lowercase(q) != lowercase(p) + seq!['/'] + rest,
        p != q && lowercase(p) == lowercase(q) ==> !compatible(pc, android),
        lowercase(q) == lowercase(p) + seq!['/'] + rest ==> !compatible(pc, android),
{
    let all = pc.union(android);
    assert(all.contains(p) && all.contains(q));
    let below = lowercase(p) + seq!['/'] + rest;
    assert(below.take(lowercase(p).len() as int) =~= lowercase(p));
    assert(below[lowercase(p).len() as int] == '/');
    assert(holds_below(lowercase(p), below));
}

/// A conflicting version is kept in a folder of its own, below a folder for its
/// path and one for its content, under its own name.
pub proof fn law_conflict_path_says_what_it_holds(path: Chars, hash: Chars)
    requires
        valid_hash(hash),
    ensures
        ({
            let parts = pieces(conflict_name(path, hash), '/');
            &&& parts.len() == 4
            &&& parts[0] == "Rowd Conflicts"@
            &&& parts[1] == hex_text(sha256_of(encode_utf8(path)))
            &&& parts[2] == hash
            &&& parts[3] == pieces(path, '/').last()
        }),
{
    reveal_strlit("Rowd Conflicts/");
    reveal_strlit("Rowd Conflicts");
    let top = "Rowd Conflicts"@;
    let digest = hex_text(sha256_of(encode_utf8(path)));
    let name = pieces(path, '/').last();
    lemma_pieces_shape(path, '/');
    assert("Rowd Conflicts/"@ =~= top + seq!['/']);
    let last = hash + seq!['/'] + name;
    let low = digest + seq!['/'] + last;
    assert(conflict_name(path, hash) =~= top + seq!['/'] + low);
    assert forall|i: int| 0 <= i < hash.len() implies hash[i] != '/' by {
        assert(lower_hex(hash[i]));
    }
    let b = sha256_of(encode_utf8(path));
    assert forall|i: int| 0 <= i < digest.len() implies digest[i] != '/' by {
        assert(0 <= i / 2 < b.len());
        assert(0 <= b[i / 2] as int / 16 < 16);
        assert(0 <= b[i / 2] as int % 16 < 16);
    }
    lemma_no_separator(top, '/');
    lemma_no_separator(digest, '/');
    lemma_no_separator(hash, '/');
    lemma_no_separator(name, '/');
    lemma_pieces_concat(hash, name, '/');
    lemma_pieces_concat(digest, last, '/');
    lemma_pieces_concat(top, low, '/');
    assert(pieces(conflict_name(path, hash), '/') =~= seq![top, digest, hash, name]);
}

/// A text reads as a word in lower case, whatever the case of its letters.
pub open spec fn reads_as(s: Chars, word: Chars) -> bool {
    s.len() == word.len() && forall|i: int|
        0 <= i < s.len() ==> #[trigger] s[i] == word[i] || s[i] as u32 + 32 == word[i] as u32
}

proof fn lemma_upper(c: char)
    ensures
        'a' <= c <= 'z' ==> ascii_upper(c) as u32 + 32 == c as u32,
        !('a' <= c <= 'z') ==> ascii_upper(c) == c,
        'A' <= c <= 'Z' ==> ascii_upper(c) == c,
{
}

proof fn lemma_reads(s: Chars, word: Chars, upper: Chars)
    requires
        word.len() == upper.len(),
        forall|i: int|
            0 <= i < word.len() ==> 'a' <= #[trigger] word[i] <= 'z' && 'A' <= upper[i] <= 'Z'
                && upper[i] as u32 + 32 == word[i] as u32,
    ensures
        s.map_values(|c: char| ascii_upper(c)) == upper <==> reads_as(s, word),
{
    let u = s.map_values(|c: char| ascii_upper(c));
    if u == upper {
        assert forall|i: int| 0 <= i < s.len() implies #[trigger] s[i] == word[i] || s[i] as u32 + 32
            == word[i] as u32 by {
            assert(u[i] == ascii_upper(s[i]));
            assert(u[i] == upper[i]);
            assert('a' <= word[i] <= 'z');
            lemma_upper(s[i]);
            if 'a' <= s[i] <= 'z' {
                assert(s[i] as u32 == word[i] as u32);
            } else {
                assert(s[i] == upper[i]);
            }
        }
    }
    if reads_as(s, word) {
        assert forall|i: int| 0 <= i < s.len() implies u[i] == upper[i] by {
            assert(u[i] == ascii_upper(s[i]));
            assert('a' <= word[i] <= 'z');
            assert(s[i] == word[i] || s[i] as u32 + 32 == word[i] as u32);
            lemma_upper(s[i]);
            assert(u[i] as u32 == upper[i] as u32);
        }
        assert(u =~= upper);
    }
}

/// The names that another system keeps for devices, in any case: `con`, `prn`,
/// `aux`, `nul`, and `com` and `lpt` with a digit.
pub proof fn law_device_names(s: Chars)
    ensures
        device_name(s) <==> reads_as(s, seq!['c', 'o', 'n']) || reads_as(s, seq!['p', 'r', 'n'])
            || reads_as(s, seq!['a', 'u', 'x']) || reads_as(s, seq!['n', 'u', 'l']) || (s.len() == 4
            && (reads_as(s.take(3), seq!['c', 'o', 'm']) || reads_as(
            s.take(3),
            seq!['l', 'p', 't'],
        )) && '0' <= s[3] <= '9'),
{
    let f = |c: char| ascii_upper(c);
    let u = s.map_values(f);
    lemma_reads(s, seq!['c', 'o', 'n'], seq!['C', 'O', 'N']);
    lemma_reads(s, seq!['p', 'r', 'n'], seq!['P', 'R', 'N']);
    lemma_reads(s, seq!['a', 'u', 'x'], seq!['A', 'U', 'X']);
    lemma_reads(s, seq!['n', 'u', 'l'], seq!['N', 'U', 'L']);
    if s.len() == 4 {
        assert(u.take(3) =~= s.take(3).map_values(f));
        lemma_reads(s.take(3), seq!['c', 'o', 'm'], seq!['C', 'O', 'M']);
        lemma_reads(s.take(3), seq!['l', 'p', 't'], seq!['L', 'P', 'T']);
        lemma_upper(s[3]);
        assert(u[3] == ascii_upper(s[3]));
    }
}

} // verus!
