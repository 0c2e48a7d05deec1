//! The local side of a Share: what is known of its files without reading
//! them, when that knowledge may be used, and how a file is replaced without
//! losing the version that was there.

use crate::collections::{lemma_take_contains, lists, Duplicate, StringMap, StringSet};
use crate::ignore::{ignored, patterns_of, Ignore};
use crate::journal::look;
use crate::model::{
    holds_below, is_hash, path_fault, text_of, valid_hash, valid_manifest, validate_manifest,
    validate_path, Entry, EntryView, Manifest, ModelError,
};
use crate::primitives::{
    absorbed, hasher_finish, hasher_new, hasher_update, hex_encode, hex_text, sha256_of,
    ContentHasher,
};
use crate::protocol::StoreMetrics;
use crate::config::seen;
use crate::text::{
    before, chars_of, compare, lemma_before_irreflexive, lemma_before_total, lines_of, same, Chars, Side,
};
use vstd::prelude::*;

verus! {

/// A digest that takes its content in piece by piece.
pub struct ContentDigest {
    hasher: ContentHasher,
    size: u64,
}

impl View for ContentDigest {
    type V = Seq<u8>;

    closed spec fn view(&self) -> Seq<u8> {
        absorbed(self.hasher)
    }
}

impl ContentDigest {
    /// The size counts the bytes taken in.
    pub closed spec fn counted(&self) -> bool {
        self.size == absorbed(self.hasher).len()
    }

    /// A digest of nothing so far.
    pub fn new() -> (r: Self)
        ensures
            r@ == Seq::<u8>::empty(),
            r.counted(),
    {
        ContentDigest { hasher: hasher_new(), size: 0 }
    }

    /// Takes in the next bytes.
    pub fn feed(&mut self, bytes: &[u8])
        requires
            old(self).counted(),
            old(self)@.len() + bytes@.len() <= u64::MAX,
        ensures
            final(self).counted(),
            final(self)@ == old(self)@ + bytes@,
    {
        hasher_update(&mut self.hasher, bytes);
        self.size = self.size + bytes.len() as u64;
    }

    /// The digest in hexadecimal digits, and the number of bytes.
    pub fn finish(self) -> (r: (String, u64))
        requires
            self.counted(),
        ensures
            r.0@ == hex_text(sha256_of(self@)),
            r.1 == self@.len(),
            valid_hash(r.0@),
    {
        let digest = hasher_finish(self.hasher);
        proof {
            crate::model::lemma_hex_is_hash(digest@);
        }
        (hex_encode(digest.as_slice()), self.size)
    }
}

/// The digest in hexadecimal digits and the size of some content.
pub fn hash_reader(content: &[u8]) -> (r: (String, u64))
    ensures
        r.0@ == hex_text(sha256_of(content@)),
        r.1 == content@.len(),
        valid_hash(r.0@),
{
    let size: usize = content.len();
    let mut digest = ContentDigest::new();
    assert(size <= u64::MAX);
    digest.feed(content);
    assert(digest@ =~= content@);
    digest.finish()
}

/// Why a store refuses something.
#[derive(Clone, Debug)]
pub enum StoreError {
    /// The content is not what was announced.
    HashMismatch,
    /// The file changed while it was read.
    StaleSource(String),
    /// The file is not the version that was to be replaced.
    StaleTarget(String),
    /// The policy leaves the path alone.
    IgnoredPath(String),
    Path(ModelError),
    Manifest(ModelError),
    /// A symbolic link stands in the way.
    Symlink(String),
    /// Neither a file nor a directory.
    Unsupported(String),
    /// The staged content belongs to another entry.
    StagedEntry,
    /// The staged file changed its size.
    StagedSize,
    /// Neither version of an interrupted replacement can be told apart.
    RecoveryRequired(String),
    /// A recovery record under another name.
    RecoveryIdentity,
    /// A record that still waits for a decision cannot be removed.
    RecoveryPending,
    /// No such recovery action.
    RecoveryAction,
    /// An export needs a destination.
    ExportDestination,
}

/// A staged file whose content was checked.
pub struct VerifiedStaged {
    path: String,
    entry: Entry,
}

impl VerifiedStaged {
    /// The entry that the content was checked against.
    pub closed spec fn checked(&self) -> EntryView {
        self.entry@
    }

    /// Where the content is staged.
    pub closed spec fn place(&self) -> Chars {
        self.path@
    }

    /// Accepts a staged file whose digest and size are the expected ones.
    pub fn from_digest(path: String, expected: &Entry, hash: &str, size: u64) -> (r: Result<
        Self,
        StoreError,
    >)
        ensures
            r is Ok <==> hash@ == expected.hash@ && size == expected.size,
            r is Ok ==> r->Ok_0.checked() == expected@ && r->Ok_0.place() == path@,
            r is Err ==> r->Err_0 is HashMismatch,
    {
        if same(hash, expected.hash.as_str()) && size == expected.size {
            Ok(VerifiedStaged { path, entry: expected.duplicate() })
        } else {
            Err(StoreError::HashMismatch)
        }
    }

    /// Where the content is staged.
    pub fn path(&self) -> (r: &String)
        ensures
            r@ == self.place(),
    {
        &self.path
    }

    /// The entry that the content was checked against.
    pub fn entry(&self) -> (r: &Entry)
        ensures
            r@ == self.checked(),
    {
        &self.entry
    }
}

/// What is remembered of a file: its metadata and its entry.
#[derive(Clone, Debug)]
pub struct CachedEntry {
    pub metadata: Vec<u64>,
    pub entry: Entry,
}

/// A [`CachedEntry`] as a mathematical value.
#[verifier::ext_equal]
pub struct CachedView {
    pub metadata: Seq<u64>,
    pub entry: EntryView,
}

impl View for CachedEntry {
    type V = CachedView;

    open spec fn view(&self) -> CachedView {
        CachedView { metadata: self.metadata@, entry: self.entry@ }
    }
}

/// Copies numbers.
fn copy_numbers(v: &Vec<u64>) -> (r: Vec<u64>)
    ensures
        r@ == v@,
{
    let mut r: Vec<u64> = Vec::new();
    let mut i: usize = 0;
    while i < v.len()
        invariant
            i <= v@.len(),
            r@ == v@.take(i as int),
        decreases v@.len() - i,
    {
        r.push(v[i]);
        assert(v@.take(i + 1) =~= v@.take(i as int).push(v@[i as int]));
        i = i + 1;
    }
    assert(v@.take(i as int) =~= v@);
    r
}

/// Whether two lists of numbers agree.
fn same_numbers(a: &Vec<u64>, b: &Vec<u64>) -> (r: bool)
    ensures
        r == (a@ == b@),
{
    if a.len() != b.len() {
        return false;
    }
    let mut i: usize = 0;
    while i < a.len()
        invariant
            a@.len() == b@.len(),
            i <= a@.len(),
            forall|j: int| 0 <= j < i ==> a@[j] == b@[j],
        decreases a@.len() - i,
    {
        if a[i] != b[i] {
            return false;
        }
        i = i + 1;
    }
    assert(a@ =~= b@);
    true
}

impl Duplicate for CachedEntry {
    fn duplicate(&self) -> (r: Self) {
        CachedEntry { metadata: copy_numbers(&self.metadata), entry: self.entry.duplicate() }
    }
}

/// A durable hint: which files of a Share changed while nobody looked.
pub struct CacheInvalidation {
    pub full: bool,
    pub paths: StringSet,
}

/// More paths than this, and everything is looked at.
pub const MAX_HINT_PATHS: usize = 1024;

/// A path that a hint cannot name.
pub open spec fn vague(path: Chars) -> bool {
    path.len() == 0 || path == ".rowdignore"@ || path_fault(path) is Some
}

impl CacheInvalidation {
    /// The hint that replaces the stored one, or nothing where there is
    /// nothing to say. A hint that cannot name its paths, or would name too
    /// many, says that everything changed.
    pub fn queue(self, full: bool, paths: &StringSet) -> (r: Option<CacheInvalidation>)
        ensures
            r is None <==> !full && paths@.len() == 0,
            r is Some ==> r->0.full == (full || self.full || (exists|p: Chars| #[trigger]
                paths@.contains(p) && vague(p)) || self.paths@.union(paths@).len()
                > MAX_HINT_PATHS),
            r is Some ==> r->0.paths@ == (if r->0.full {
                Set::<Chars>::empty()
            } else {
                self.paths@.union(paths@)
            }),
    {
        let n: usize = paths.len();
        if !full && n == 0 {
            return None;
        }
        if full || self.full {
            return Some(CacheInvalidation { full: true, paths: StringSet::new() });
        }
        let mut known = self.paths;
        let ghost order = paths.order();
        let ghost was = self.paths@;
        let start: usize = known.len();
        let mut i: usize = 0;
        while i < n
            invariant
                order == paths.order(),
                n == order.len(),
                lists(order, paths@),
                paths@.finite(),
                was.finite(),
                i <= n,
                !full,
                !self.full,
                was == self.paths@,
                forall|k: Chars| #[trigger]
                    known@.contains(k) <==> was.contains(k) || order.take(i as int).contains(k),
                forall|j: int| 0 <= j < i ==> !vague(#[trigger] order[j]),
            decreases n - i,
        {
            let path = paths.at(i);
            let bad = path.as_str().is_empty() || same(path.as_str(), ".rowdignore")
                || validate_path(path.as_str()).is_err();
            if bad {
                assert(vague(path@));
                return Some(CacheInvalidation { full: true, paths: StringSet::new() });
            }
            proof {
                lemma_take_contains(order, i as int);
            }
            known.insert(path.clone());
            i = i + 1;
            if known.len() > MAX_HINT_PATHS {
                proof {
                    assert(known@.subset_of(was.union(paths@))) by {
                        assert forall|k: Chars| known@.contains(k) implies was.union(
                            paths@,
                        ).contains(k) by {
                            if order.take(i as int).contains(k) {
                                let m = choose|m: int|
                                    0 <= m < order.take(i as int).len() && order.take(i as int)[m]
                                        == k;
                                assert(order[m] == k);
                                assert(order.contains(k));
                            }
                        }
                    }
                    vstd::set_lib::lemma_len_subset(known@, was.union(paths@));
                }
                return Some(CacheInvalidation { full: true, paths: StringSet::new() });
            }
        }
        proof {
            assert(order.take(n as int) =~= order);
            assert(known@ =~= was.union(paths@));
            assert forall|p: Chars| paths@.contains(p) implies !vague(p) by {
                assert(order.contains(p));
                let j = choose|j: int| 0 <= j < order.len() && order[j] == p;
                assert(!vague(order[j]));
            }
        }
        if known.len() > MAX_HINT_PATHS {
            return Some(CacheInvalidation { full: true, paths: StringSet::new() });
        }
        Some(CacheInvalidation { full: false, paths: known })
    }
}

/// What a store knows before it looks at its files.
pub struct LocalStore {
    /// A policy that stands in for the one in the folder.
    policy_override: Option<String>,
    policy_text: String,
    ignore: Ignore,
    cache: StringMap<CachedEntry>,
    /// The cache was made under the policy in force.
    cache_trusted: bool,
    /// A live watcher vouches for what it did not report.
    incremental_allowed: bool,
    force_full_scan: bool,
    /// Paths that have to be read again.
    dirty_paths: StringSet,
    /// Those of them that were reported by path.
    known_dirty_paths: StringSet,
    cache_modified: bool,
    /// A durable hint has to be removed after the next scan.
    pending_cache_invalidation: bool,
    metrics: StoreMetrics,
    base_token: Option<String>,
}

/// A [`LocalStore`] as a mathematical value.
#[verifier::ext_equal]
pub struct StoreView {
    pub policy_override: Option<Chars>,
    pub policy_text: Chars,
    pub ignore: Seq<Chars>,
    pub cache: Map<Chars, CachedView>,
    pub cache_trusted: bool,
    pub incremental_allowed: bool,
    pub force_full_scan: bool,
    pub dirty_paths: Set<Chars>,
    pub known_dirty_paths: Set<Chars>,
    pub cache_modified: bool,
    pub pending_cache_invalidation: bool,
    pub metrics: StoreMetrics,
    pub base_token: Option<Chars>,
}

impl View for LocalStore {
    type V = StoreView;

    closed spec fn view(&self) -> StoreView {
        StoreView {
            policy_override: crate::config::owned_text(self.policy_override),
            policy_text: self.policy_text@,
            ignore: self.ignore@,
            cache: self.cache@,
            cache_trusted: self.cache_trusted,
            incremental_allowed: self.incremental_allowed,
            force_full_scan: self.force_full_scan,
            dirty_paths: self.dirty_paths@,
            known_dirty_paths: self.known_dirty_paths@,
            cache_modified: self.cache_modified,
            pending_cache_invalidation: self.pending_cache_invalidation,
            metrics: self.metrics,
            base_token: crate::config::owned_text(self.base_token),
        }
    }
}

/// A change of `path` makes the cached `key` doubtful: the path itself, or
/// one below it.
pub open spec fn touched(path: Chars, key: Chars) -> bool {
    key == path || holds_below(path, key)
}

/// A cache without what a change of `path` makes doubtful.
pub open spec fn cache_without(cache: Map<Chars, CachedView>, path: Chars) -> Map<
    Chars,
    CachedView,
> {
    Map::new(|k: Chars| cache.dom().contains(k) && !touched(path, k), |k: Chars| cache[k])
}

/// The store after a change of one path was reported.
pub open spec fn path_reported(s: StoreView, path: Chars) -> StoreView {
    StoreView {
        cache: cache_without(s.cache, path),
        cache_modified: s.cache_modified || exists|k: Chars| #[trigger]
            s.cache.dom().contains(k) && touched(path, k),
        known_dirty_paths: s.known_dirty_paths.insert(path),
        dirty_paths: if path_fault(path) is None {
            s.dirty_paths.insert(path)
        } else {
            s.dirty_paths
        },
        force_full_scan: s.force_full_scan || path_fault(path) is Some,
        ..s
    }
}

/// The store after everything became doubtful.
pub open spec fn all_reported(s: StoreView) -> StoreView {
    StoreView {
        cache: Map::empty(),
        cache_modified: s.cache_modified || s.cache.dom().len() > 0,
        force_full_scan: true,
        ..s
    }
}

/// What the durable hint of a Share says when its store is opened.
pub enum Hint {
    /// There is no hint.
    Absent,
    /// There is one, and it cannot be read.
    Unreadable,
    Stored(CacheInvalidation),
}

/// Whether a hint makes everything doubtful: it says so, cannot be read, or
/// names a path that cannot be one of the Share.
pub open spec fn hint_is_full(h: Hint) -> bool {
    match h {
        Hint::Absent => false,
        Hint::Unreadable => true,
        Hint::Stored(c) => c.full || exists|p: Chars| #[trigger]
            c.paths@.contains(p) && path_fault(p) is Some,
    }
}

/// The store before its hint is looked at.
pub open spec fn opened_plain(
    policy_override: Option<Chars>,
    policy: Chars,
    cache: Map<Chars, CachedView>,
    trusted: bool,
) -> StoreView {
    StoreView {
        policy_override,
        policy_text: policy,
        ignore: patterns_of(lines_of(policy)),
        cache,
        cache_trusted: trusted,
        incremental_allowed: false,
        force_full_scan: false,
        dirty_paths: Set::empty(),
        known_dirty_paths: Set::empty(),
        cache_modified: false,
        pending_cache_invalidation: false,
        metrics: crate::protocol::no_metrics(),
        base_token: None,
    }
}

/// The store after the paths of a hint were reported, each a sound one.
pub open spec fn paths_reported(s: StoreView, paths: Set<Chars>) -> StoreView {
    StoreView {
        cache: Map::new(
            |k: Chars|
                s.cache.dom().contains(k) && forall|p: Chars| #[trigger]
                    paths.contains(p) ==> !touched(p, k),
            |k: Chars| s.cache[k],
        ),
        cache_modified: s.cache_modified || exists|k: Chars, p: Chars|
            #![trigger s.cache.dom().contains(k), paths.contains(p)]
            s.cache.dom().contains(k) && paths.contains(p) && touched(p, k),
        known_dirty_paths: s.known_dirty_paths.union(paths),
        dirty_paths: s.dirty_paths.union(paths),
        ..s
    }
}

/// The store after its hint was looked at.
pub open spec fn hinted(s: StoreView, h: Hint) -> StoreView {
    if h is Absent {
        s
    } else if hint_is_full(h) {
        StoreView { pending_cache_invalidation: true, ..all_reported(s) }
    } else {
        StoreView { pending_cache_invalidation: true, ..paths_reported(s, h->Stored_0.paths@) }
    }
}

/// The cache as it was stored, with the policy it was made under where that
/// was stored too.
pub struct StoredCache {
    pub policy: Option<String>,
    pub files: StringMap<CachedEntry>,
}

impl LocalStore {
    /// Opens a store: the stored cache is trusted only under the policy that
    /// it was made under, and the hint says which of it is doubtful.
    pub fn open(
        policy_override: Option<String>,
        policy: String,
        stored: Option<StoredCache>,
        hint: Hint,
    ) -> (r: Self)
        ensures
            r@ == hinted(
                opened_plain(
                    crate::config::owned_text(policy_override),
                    policy@,
                    match stored {
                        Some(c) => c.files@,
                        None => Map::empty(),
                    },
                    stored is Some && crate::config::owned_text(stored->0.policy) == Some(policy@),
                ),
                hint,
            ),
    {
        let (cache, trusted) = match stored {
            Some(c) => {
                let trusted = match &c.policy {
                    Some(p) => same(p.as_str(), policy.as_str()),
                    None => false,
                };
                (c.files, trusted)
            },
            None => (StringMap::new(), false),
        };
        let mut store = LocalStore {
            policy_override,
            ignore: Ignore::parse(policy.as_str()),
            policy_text: policy,
            cache,
            cache_trusted: trusted,
            incremental_allowed: false,
            force_full_scan: false,
            dirty_paths: StringSet::new(),
            known_dirty_paths: StringSet::new(),
            cache_modified: false,
            pending_cache_invalidation: false,
            metrics: StoreMetrics::default(),
            base_token: None,
        };
        let ghost start = store@;
        match hint {
            Hint::Absent => {},
            Hint::Unreadable => {
                store.invalidate();
                store.pending_cache_invalidation = true;
                assert(store@ =~= hinted(start, hint));
            },
            Hint::Stored(change) => {
                if change.full || any_unsound(&change.paths) {
                    store.invalidate();
                    store.pending_cache_invalidation = true;
                    assert(store@ =~= hinted(start, hint));
                } else {
                    store.report_all(&change.paths);
                    store.pending_cache_invalidation = true;
                    assert(store@ =~= hinted(start, hint));
                }
            },
        }
        store
    }

    fn report_all(&mut self, paths: &StringSet)
        requires
            forall|p: Chars| #[trigger] paths@.contains(p) ==> path_fault(p) is None,
        ensures
            final(self)@ == paths_reported(old(self)@, paths@),
    {
        let n: usize = paths.len();
        let ghost order = paths.order();
        let ghost s = self@;
        let mut i: usize = 0;
        assert(order.take(0).to_set() =~= Set::<Chars>::empty());
        assert(self@ =~= paths_reported(s, order.take(0).to_set()));
        while i < n
            invariant
                order == paths.order(),
                n == order.len(),
                lists(order, paths@),
                forall|p: Chars| #[trigger] paths@.contains(p) ==> path_fault(p) is None,
                i <= n,
                self@ == paths_reported(s, order.take(i as int).to_set()),
            decreases n - i,
        {
            let ghost before = self@;
            let path = paths.at(i).clone();
            self.invalidate_path(path.as_str());
            proof {
                lemma_take_contains(order, i as int);
                let a = order.take(i as int).to_set();
                let b = order.take(i + 1).to_set();
                let at = order[i as int];
                assert(b =~= a.insert(at));
                assert(paths@.contains(at));
                let t = paths_reported(s, b);
                assert(self@.cache =~= t.cache) by {
                    assert forall|k: Chars| #[trigger] self@.cache.dom().contains(k)
                        <==> t.cache.dom().contains(k) by {
                        if t.cache.dom().contains(k) {
                            assert(b.contains(at));
                            assert forall|p: Chars| #[trigger] a.contains(p) implies !touched(p, k) by {
                                assert(b.contains(p));
                            }
                            assert(before.cache.dom().contains(k));
                        }
                        if self@.cache.dom().contains(k) {
                            assert(before.cache.dom().contains(k));
                            assert forall|p: Chars| #[trigger] b.contains(p) implies !touched(p, k) by {
                                if p != at {
                                    assert(a.contains(p));
                                }
                            }
                        }
                    }
                }
                assert(self@.cache_modified == t.cache_modified) by {
                    if self@.cache_modified && !s.cache_modified {
                        if before.cache_modified {
                            let (k, p) = choose|k: Chars, p: Chars|
                                #![trigger s.cache.dom().contains(k), a.contains(p)]
                                s.cache.dom().contains(k) && a.contains(p) && touched(p, k);
                            assert(s.cache.dom().contains(k) && b.contains(p));
                        } else {
                            let k = choose|k: Chars| #[trigger]
                                before.cache.dom().contains(k) && touched(at, k);
                            assert(s.cache.dom().contains(k) && b.contains(at));
                        }
                    }
                    if t.cache_modified && !s.cache_modified {
                        let (k, p) = choose|k: Chars, p: Chars|
                            #![trigger s.cache.dom().contains(k), b.contains(p)]
                            s.cache.dom().contains(k) && b.contains(p) && touched(p, k);
                        if p != at {
                            assert(a.contains(p));
                            assert(before.cache_modified);
                        } else if exists|q: Chars| #[trigger] a.contains(q) && touched(q, k) {
                            assert(before.cache_modified);
                        } else {
                            assert(before.cache.dom().contains(k));
                        }
                    }
                }
                assert(self@.dirty_paths =~= t.dirty_paths);
                assert(self@.known_dirty_paths =~= t.known_dirty_paths);
                assert(self@ =~= t);
            }
            i = i + 1;
        }
        assert(order.take(n as int) =~= order);
        assert(order.to_set() =~= paths@);
    }

    /// Lets the next scan skip what a live watcher did not report.
    pub fn allow_incremental_scan(&mut self)
        ensures
            final(self)@ == (StoreView { incremental_allowed: true, ..old(self)@ }),
    {
        self.incremental_allowed = true;
    }

    /// Makes everything doubtful.
    pub fn invalidate(&mut self)
        ensures
            final(self)@ == all_reported(old(self)@),
    {
        let ghost s = self@;
        let n: usize = self.cache.len();
        self.cache_modified = self.cache_modified || n > 0;
        self.cache = StringMap::new();
        self.force_full_scan = true;
        assert(self@ =~= all_reported(s));
    }

    /// Makes a path, and what lies below it, doubtful.
    pub fn invalidate_path(&mut self, path: &str)
        ensures
            final(self)@ == path_reported(old(self)@, path@),
    {
        let ghost s = self@;
        self.known_dirty_paths.insert(path.to_owned());
        let (kept, dropped) = drop_touched(&self.cache, path);
        self.cache = kept;
        self.cache_modified = self.cache_modified || dropped;
        if validate_path(path).is_ok() {
            self.dirty_paths.insert(path.to_owned());
        } else {
            self.force_full_scan = true;
        }
        assert(self@ =~= path_reported(s, path@));
    }

    /// Asks for a scan that looks at everything.
    pub fn require_full_scan(&mut self)
        ensures
            final(self)@ == (StoreView { force_full_scan: true, ..old(self)@ }),
    {
        self.force_full_scan = true;
    }

    /// What was counted since the store was opened.
    pub fn metrics(&self) -> (r: StoreMetrics)
        ensures
            r == self@.metrics,
    {
        self.metrics
    }

    /// Whether the policy leaves a path alone.
    pub fn excluded(&self, path: &str) -> (r: bool)
        ensures
            r == ignored(self@.ignore, path@, false),
    {
        self.ignore.matches(path, false)
    }

    /// The token of the last agreed state.
    pub fn base_token(&self) -> (r: Option<String>)
        ensures
            crate::config::owned_text(r) == self@.base_token,
    {
        crate::config::copy_text(&self.base_token)
    }

    /// Replaces the token of the last agreed state.
    pub fn set_base_token(&mut self, token: Option<String>)
        ensures
            final(self)@ == (StoreView {
                base_token: crate::config::owned_text(token),
                ..old(self)@
            }),
    {
        self.base_token = token;
    }
}

/// Whether a set holds a path that cannot be one of a Share.
fn any_unsound(paths: &StringSet) -> (r: bool)
    ensures
        r == exists|p: Chars| #[trigger] paths@.contains(p) && path_fault(p) is Some,
{
    let n: usize = paths.len();
    let ghost order = paths.order();
    let mut i: usize = 0;
    while i < n
        invariant
            order == paths.order(),
            n == order.len(),
            lists(order, paths@),
            i <= n,
            forall|j: int| 0 <= j < i ==> path_fault(#[trigger] order[j]) is None,
        decreases n - i,
    {
        let path = paths.at(i);
        if validate_path(path.as_str()).is_err() {
            assert(paths@.contains(path@));
            return true;
        }
        i = i + 1;
    }
    proof {
        assert forall|p: Chars| #[trigger] paths@.contains(p) implies path_fault(p) is None by {
            assert(order.contains(p));
            let j = choose|j: int| 0 <= j < order.len() && order[j] == p;
            assert(path_fault(order[j]) is None);
        }
    }
    false
}

/// Whether a change of `path` makes `key` doubtful.
fn is_touched(path: &str, key: &str) -> (r: bool)
    ensures
        r == touched(path@, key@),
{
    if same(path, key) {
        return true;
    }
    let p = chars_of(path);
    let k = chars_of(key);
    if p.len() >= k.len() || k[p.len()] != '/' {
        return false;
    }
    let mut i: usize = 0;
    while i < p.len()
        invariant
            p@ == path@,
            k@ == key@,
            i <= p@.len() < k@.len(),
            path@ != key@,
            forall|j: int| 0 <= j < i ==> p@[j] == k@[j],
        decreases p@.len() - i,
    {
        if p[i] != k[i] {
            assert(key@.take(path@.len() as int)[i as int] != path@[i as int]);
            return false;
        }
        i = i + 1;
    }
    assert(key@.take(path@.len() as int) =~= path@);
    true
}

/// A cache without what a change of `path` makes doubtful, and whether
/// anything went.
fn drop_touched(cache: &StringMap<CachedEntry>, path: &str) -> (r: (StringMap<CachedEntry>, bool))
    ensures
        r.0@ == cache_without(cache@, path@),
        r.1 == exists|k: Chars| #[trigger] cache@.dom().contains(k) && touched(path@, k),
{
    let mut kept: StringMap<CachedEntry> = StringMap::new();
    let mut dropped = false;
    let n: usize = cache.len();
    let ghost order = cache.order();
    let mut i: usize = 0;
    while i < n
        invariant
            order == cache.order(),
            n == order.len(),
            lists(order, cache@.dom()),
            i <= n,
            forall|k: Chars| #[trigger]
                kept@.dom().contains(k) <==> order.take(i as int).contains(k) && !touched(path@, k),
            forall|k: Chars| kept@.dom().contains(k) ==> #[trigger] kept@[k] == cache@[k],
            dropped == exists|j: int| 0 <= j < i && touched(path@, #[trigger] order[j]),
        decreases n - i,
    {
        let key = cache.key_at(i);
        proof {
            lemma_take_contains(order, i as int);
        }
        if is_touched(path, key.as_str()) {
            assert(touched(path@, order[i as int]));
            dropped = true;
        } else {
            let value = cache.value_at(i).duplicate();
            kept.insert(key.clone(), value);
        }
        i = i + 1;
    }
    proof {
        assert(order.take(n as int) =~= order);
        assert(kept@ =~= cache_without(cache@, path@));
        if dropped {
            let j = choose|j: int| 0 <= j < n && touched(path@, #[trigger] order[j]);
            assert(order.contains(order[j]));
            assert(cache@.dom().contains(order[j]));
        }
        if exists|k: Chars| #[trigger] cache@.dom().contains(k) && touched(path@, k) {
            let k = choose|k: Chars| #[trigger] cache@.dom().contains(k) && touched(path@, k);
            assert(order.contains(k));
            let j = choose|j: int| 0 <= j < order.len() && order[j] == k;
            assert(touched(path@, order[j]));
        }
    }
    (kept, dropped)
}

/// What a look at one path found.
pub enum PathFact {
    Missing,
    /// Something that is not a regular file.
    Other,
    /// A file, its metadata before and after it was read, and what was read.
    File { before: Vec<u64>, after: Vec<u64>, entry: Entry },
}

/// A [`PathFact`] as a mathematical value.
pub enum FactView {
    Missing,
    Other,
    File { before: Seq<u64>, after: Seq<u64>, entry: EntryView },
}

impl View for PathFact {
    type V = FactView;

    open spec fn view(&self) -> FactView {
        match self {
            PathFact::Missing => FactView::Missing,
            PathFact::Other => FactView::Other,
            PathFact::File { before, after, entry } => FactView::File {
                before: before@,
                after: after@,
                entry: entry@,
            },
        }
    }
}

/// How many bytes were read for a fact.
pub open spec fn fact_size(f: FactView) -> int {
    match f {
        FactView::File { before, after, entry } => entry.size as int,
        _ => 0,
    }
}

/// How many bytes were read for all facts.
pub open spec fn facts_size(facts: Seq<PathFact>) -> int
    decreases facts.len(),
{
    if facts.len() == 0 {
        0
    } else {
        fact_size(facts[0]@) + facts_size(facts.drop_first())
    }
}

/// The counters after one more file was found and read.
pub open spec fn counted_read(m: StoreMetrics, size: u64) -> StoreMetrics {
    StoreMetrics {
        files_enumerated: (m.files_enumerated + 1) as u64,
        files_hashed: (m.files_hashed + 1) as u64,
        bytes_hashed: (m.bytes_hashed + size) as u64,
        ..m
    }
}

/// The counters have room for `files` more files and `bytes` more bytes.
pub open spec fn room(m: StoreMetrics, files: int, bytes: int) -> bool {
    &&& m.files_enumerated + files <= u64::MAX
    &&& m.files_hashed + files <= u64::MAX
    &&& m.bytes_hashed + bytes <= u64::MAX
    &&& m.full_scans < u64::MAX
    &&& m.staging_copies < u64::MAX
}

/// The policy in force: the one that stands in, else the folder's.
pub open spec fn in_force(s: StoreView, folder: Chars) -> Chars {
    match s.policy_override {
        Some(p) => p,
        None => folder,
    }
}

/// Whether the store may answer for single paths without a full scan.
pub open spec fn delta_ready(s: StoreView, folder: Chars) -> bool {
    &&& s.incremental_allowed
    &&& s.cache_trusted
    &&& !s.force_full_scan
    &&& in_force(s, folder) == s.policy_text
    &&& s.dirty_paths.subset_of(s.known_dirty_paths)
}

/// How a look at single paths ends.
pub enum DeltaEnd {
    /// A full scan is needed.
    Full,
    /// A file changed while it was read.
    Stale(Chars),
    Files(Map<Chars, EntryView>),
}

/// A look at the paths from the `i`-th on: what the store knows then, and how
/// the look ended.
pub open spec fn delta_run(
    s: StoreView,
    files: Map<Chars, EntryView>,
    order: Seq<Chars>,
    facts: Seq<PathFact>,
    i: int,
) -> (StoreView, DeltaEnd)
    decreases order.len() - i,
{
    if i < 0 || i >= order.len() {
        (
            StoreView { dirty_paths: Set::empty(), known_dirty_paths: Set::empty(), ..s },
            DeltaEnd::Files(files),
        )
    } else if ignored(s.ignore, order[i], false) {
        (s, DeltaEnd::Full)
    } else {
        match facts[i]@ {
            FactView::Missing => delta_run(
                StoreView { cache: s.cache.remove(order[i]), ..s },
                files,
                order,
                facts,
                i + 1,
            ),
            FactView::Other => (s, DeltaEnd::Full),
            FactView::File { before, after, entry } => if before != after {
                (s, DeltaEnd::Stale(order[i]))
            } else {
                delta_run(
                    StoreView {
                        cache: s.cache.insert(order[i], CachedView { metadata: after, entry }),
                        metrics: counted_read(s.metrics, entry.size),
                        ..s
                    },
                    files.insert(order[i], entry),
                    order,
                    facts,
                    i + 1,
                )
            },
        }
    }
}

/// The whole look at single paths.
pub open spec fn delta_scanned(
    s: StoreView,
    folder: Chars,
    paths: Set<Chars>,
    order: Seq<Chars>,
    facts: Seq<PathFact>,
) -> (StoreView, DeltaEnd) {
    if !delta_ready(s, folder) || exists|p: Chars| #[trigger]
        paths.contains(p) && path_fault(p) is Some {
        (s, DeltaEnd::Full)
    } else {
        delta_run(s, Map::empty(), order, facts, 0)
    }
}

/// A scan in progress.
pub struct Scan {
    pub incremental: bool,
    pub policy: String,
    pub result: Manifest,
    pub cache_changed: bool,
}

/// A [`Scan`] as a mathematical value.
#[verifier::ext_equal]
pub struct ScanView {
    pub incremental: bool,
    pub policy: Chars,
    pub result: Map<Chars, EntryView>,
    pub cache_changed: bool,
}

impl View for Scan {
    type V = ScanView;

    open spec fn view(&self) -> ScanView {
        ScanView {
            incremental: self.incremental,
            policy: self.policy@,
            result: self.result@,
            cache_changed: self.cache_changed,
        }
    }
}

/// What the walk found at a path.
#[derive(Clone, Copy, Debug, PartialEq, Eq, Structural)]
pub enum FileKind {
    File,
    Directory,
    Symlink,
    Other,
}

/// What the walk has to do at a path.
#[derive(Clone, Copy, Debug, PartialEq, Eq, Structural)]
pub enum Visit {
    /// Leave it alone.
    Skip,
    /// Walk into the directory.
    Descend,
    /// The remembered entry holds.
    Known,
    /// The file has to be read.
    Read,
}

/// Whether the remembered entry of a file still holds.
pub open spec fn remembered(s: StoreView, path: Chars, metadata: Seq<u64>) -> bool {
    s.cache.dom().contains(path) && metadata.len() > 0 && s.cache[path].metadata == metadata
}

/// What the walk of a full scan comes upon at a path.
pub enum Visited {
    Goes(Visit),
    BadPath,
    Symlink,
    Unsupported,
}

/// What the walk of a full scan comes upon at a path.
pub open spec fn visited(s: StoreView, path: Chars, kind: FileKind, metadata: Seq<u64>) -> Visited {
    if ignored(s.ignore, path, kind == FileKind::Directory) {
        Visited::Goes(Visit::Skip)
    } else if path_fault(path) is Some {
        Visited::BadPath
    } else {
        match kind {
            FileKind::Symlink => Visited::Symlink,
            FileKind::Other => Visited::Unsupported,
            FileKind::Directory => Visited::Goes(Visit::Descend),
            FileKind::File => if remembered(s, path, metadata) {
                Visited::Goes(Visit::Known)
            } else {
                Visited::Goes(Visit::Read)
            },
        }
    }
}

/// The store and the scan once the walk was at a path: a file counts as found,
/// and one that is remembered is part of the result.
pub open spec fn after_visit(
    s: StoreView,
    scan: ScanView,
    path: Chars,
    kind: FileKind,
    metadata: Seq<u64>,
) -> (StoreView, ScanView) {
    let found = StoreView {
        metrics: StoreMetrics {
            files_enumerated: (s.metrics.files_enumerated + 1) as u64,
            ..s.metrics
        },
        ..s
    };
    match visited(s, path, kind, metadata) {
        Visited::Goes(Visit::Known) => (
            found,
            ScanView { result: scan.result.insert(path, s.cache[path].entry), ..scan },
        ),
        Visited::Goes(Visit::Read) => (found, scan),
        _ => (s, scan),
    }
}

/// The store and the scan once a file was read: it counts as read, and if it
/// did not change meanwhile it is remembered and part of the result.
pub open spec fn after_record(
    s: StoreView,
    scan: ScanView,
    path: Chars,
    before: Seq<u64>,
    after: Seq<u64>,
    entry: EntryView,
) -> (StoreView, ScanView) {
    let read = StoreView {
        metrics: StoreMetrics {
            files_hashed: (s.metrics.files_hashed + 1) as u64,
            bytes_hashed: (s.metrics.bytes_hashed + entry.size) as u64,
            ..s.metrics
        },
        ..s
    };
    if before == after {
        (
            StoreView {
                cache: s.cache.insert(path, CachedView { metadata: after, entry }),
                ..read
            },
            ScanView { result: scan.result.insert(path, entry), cache_changed: true, ..scan },
        )
    } else {
        (read, scan)
    }
}

/// The entries of a cache.
pub open spec fn cached_entries(cache: Map<Chars, CachedView>) -> Map<Chars, EntryView> {
    Map::new(|k: Chars| cache.dom().contains(k), |k: Chars| cache[k].entry)
}

/// Everything that a scan has found so far is remembered.
pub open spec fn scan_remembered(s: StoreView, scan: ScanView) -> bool {
    forall|k: Chars| #[trigger]
        scan.result.dom().contains(k) ==> s.cache.dom().contains(k) && s.cache[k].entry
            == scan.result[k]
}

/// Whether a scan may trust the cache for all but the dirty paths.
pub open spec fn incremental_scan(s: StoreView, policy: Chars, dirty_settled: bool) -> bool {
    s.incremental_allowed && s.cache_trusted && !s.force_full_scan && policy == s.policy_text
        && dirty_settled
}

/// The store when a scan begins.
pub open spec fn scan_begun(s: StoreView, policy: Chars, incremental: bool) -> StoreView {
    StoreView {
        ignore: patterns_of(lines_of(policy)),
        metrics: if incremental {
            s.metrics
        } else {
            StoreMetrics { full_scans: (s.metrics.full_scans + 1) as u64, ..s.metrics }
        },
        ..s
    }
}

/// The store after a scan: it remembers what the scan found and nothing else.
pub open spec fn scan_finished(s: StoreView, scan: ScanView) -> StoreView {
    StoreView {
        cache: Map::new(
            |k: Chars| s.cache.dom().contains(k) && scan.result.dom().contains(k),
            |k: Chars| s.cache[k],
        ),
        policy_text: scan.policy,
        pending_cache_invalidation: false,
        dirty_paths: Set::empty(),
        known_dirty_paths: Set::empty(),
        force_full_scan: false,
        cache_modified: false,
        cache_trusted: true,
        ..s
    }
}

/// Whether the cache has to be stored after a scan.
pub open spec fn scan_persists(s: StoreView, scan: ScanView) -> bool {
    ||| scan.cache_changed
    ||| exists|k: Chars| #[trigger] s.cache.dom().contains(k) && !scan.result.dom().contains(k)
    ||| s.pending_cache_invalidation
    ||| s.force_full_scan
    ||| s.cache_modified
    ||| !s.cache_trusted
}

/// What a finished scan asks for.
pub struct ScanDone {
    pub files: Manifest,
    /// The cache has to be stored.
    pub persist: bool,
    /// The durable hint has to be removed.
    pub remove_hint: bool,
}

impl LocalStore {
    /// The policy in force, given the folder's.
    fn policy_now(&self, folder: &str) -> (r: String)
        ensures
            r@ == in_force(self@, folder@),
    {
        match &self.policy_override {
            Some(p) => p.clone(),
            None => folder.to_owned(),
        }
    }

    /// The paths that changed, where nothing else can have changed.
    pub fn delta_paths(&self, folder: &str) -> (r: Option<StringSet>)
        ensures
            r is Some <==> delta_ready(self@, folder@),
            r is Some ==> r->0@ == self@.dirty_paths,
    {
        if !self.incremental_allowed || !self.cache_trusted || self.force_full_scan {
            return None;
        }
        let policy = self.policy_now(folder);
        if !same(policy.as_str(), self.policy_text.as_str()) {
            return None;
        }
        let n: usize = self.dirty_paths.len();
        let ghost order = self.dirty_paths.order();
        let mut i: usize = 0;
        while i < n
            invariant
                order == self.dirty_paths.order(),
                n == order.len(),
                lists(order, self.dirty_paths@),
                i <= n,
                forall|j: int| 0 <= j < i ==> self.known_dirty_paths@.contains(#[trigger] order[j]),
            decreases n - i,
        {
            let path = self.dirty_paths.at(i);
            if !self.known_dirty_paths.contains(path.as_str()) {
                assert(self@.dirty_paths.contains(path@));
                return None;
            }
            i = i + 1;
        }
        proof {
            assert forall|p: Chars| self@.dirty_paths.contains(p) implies self@.known_dirty_paths.contains(
                p,
            ) by {
                assert(order.contains(p));
                let j = choose|j: int| 0 <= j < order.len() && order[j] == p;
                assert(self.known_dirty_paths@.contains(order[j]));
            }
        }
        Some(self.dirty_paths.duplicate())
    }

    /// Answers for single paths, given what a look at each found, in
    /// ascending order; nothing where a full scan is needed.
    pub fn scan_paths(&mut self, folder: &str, paths: &StringSet, facts: &Vec<PathFact>) -> (r: Result<
        Option<Manifest>,
        StoreError,
    >)
        requires
            facts@.len() == paths.order().len(),
            room(old(self)@.metrics, facts@.len() as int, facts_size(facts@)),
        ensures
            ({
                let (t, end) = delta_scanned(
                    old(self)@,
                    folder@,
                    paths@,
                    paths.order(),
                    facts@,
                );
                &&& final(self)@ == t
                &&& match end {
                    DeltaEnd::Full => r matches Ok(None),
                    DeltaEnd::Stale(p) => r matches Err(StoreError::StaleSource(q)) && q@ == p,
                    DeltaEnd::Files(m) => r matches Ok(Some(files)) && files@ == m,
                }
            }),
    {
        if self.delta_paths(folder).is_none() || any_unsound(paths) {
            return Ok(None);
        }
        let n: usize = paths.len();
        let ghost order = paths.order();
        let ghost start = self@;
        let mut files: Manifest = StringMap::new();
        let mut i: usize = 0;
        assert(facts@.skip(0) =~= facts@);
        while i < n
            invariant
                order == paths.order(),
                n == order.len(),
                n == facts@.len(),
                i <= n,
                delta_scanned(start, folder@, paths@, order, facts@) == delta_run(
                    self@,
                    files@,
                    order,
                    facts@,
                    i as int,
                ),
                room(self@.metrics, n - i, facts_size(facts@.skip(i as int))),
                start == old(self)@,
            decreases n - i,
        {
            let path = paths.at(i);
            if self.excluded(path.as_str()) {
                return Ok(None);
            }
            proof {
                assert(facts@.skip(i as int)[0] == facts@[i as int]);
                assert(facts@.skip(i as int).drop_first() =~= facts@.skip(i + 1));
                lemma_facts_size(facts@.skip(i + 1));
            }
            match &facts[i] {
                PathFact::Missing => {
                    let ghost s = self@;
                    self.cache.remove(path.as_str());
                    assert(self@ =~= (StoreView { cache: s.cache.remove(path@), ..s }));
                },
                PathFact::Other => {
                    return Ok(None);
                },
                PathFact::File { before, after, entry } => {
                    if !same_numbers(before, after) {
                        return Err(StoreError::StaleSource(path.clone()));
                    }
                    let ghost s = self@;
                    self.cache.insert(
                        path.clone(),
                        CachedEntry { metadata: copy_numbers(after), entry: entry.duplicate() },
                    );
                    files.insert(path.clone(), entry.duplicate());
                    self.count_read(entry.size);
                    assert(self@ =~= (StoreView {
                        cache: s.cache.insert(
                            path@,
                            CachedView { metadata: after@, entry: entry@ },
                        ),
                        metrics: counted_read(s.metrics, entry.size),
                        ..s
                    }));
                },
            }
            i = i + 1;
        }
        let ghost s = self@;
        self.dirty_paths = StringSet::new();
        self.known_dirty_paths = StringSet::new();
        assert(self@ =~= (StoreView {
            dirty_paths: Set::empty(),
            known_dirty_paths: Set::empty(),
            ..s
        }));
        Ok(Some(files))
    }

    fn count_read(&mut self, size: u64)
        requires
            room(old(self)@.metrics, 1, size as int),
        ensures
            final(self)@ == (StoreView {
                metrics: counted_read(old(self)@.metrics, size),
                ..old(self)@
            }),
    {
        self.metrics = StoreMetrics {
            files_enumerated: self.metrics.files_enumerated + 1,
            files_hashed: self.metrics.files_hashed + 1,
            bytes_hashed: self.metrics.bytes_hashed + size,
            staging_copies: self.metrics.staging_copies,
            full_scans: self.metrics.full_scans,
        };
    }

    /// Begins a scan. `dirty_settled` says that every dirty path is a file or
    /// gone. An incremental scan starts from what is remembered.
    pub fn begin_scan(&mut self, folder: &str, dirty_settled: bool) -> (r: Scan)
        requires
            old(self)@.metrics.full_scans < u64::MAX,
        ensures
            ({
                let s = old(self)@;
                let policy = in_force(s, folder@);
                let incremental = incremental_scan(s, policy, dirty_settled);
                &&& final(self)@ == scan_begun(s, policy, incremental)
                &&& r@ == (ScanView {
                    incremental,
                    policy,
                    result: if incremental {
                        cached_entries(s.cache)
                    } else {
                        Map::empty()
                    },
                    cache_changed: false,
                })
                &&& scan_remembered(final(self)@, r@)
            }),
    {
        let ghost s = self@;
        let policy = self.policy_now(folder);
        self.ignore = Ignore::parse(policy.as_str());
        let incremental = self.incremental_allowed && self.cache_trusted && !self.force_full_scan
            && same(policy.as_str(), self.policy_text.as_str()) && dirty_settled;
        let result = if incremental {
            entries_of(&self.cache)
        } else {
            self.metrics = StoreMetrics {
                files_enumerated: self.metrics.files_enumerated,
                files_hashed: self.metrics.files_hashed,
                bytes_hashed: self.metrics.bytes_hashed,
                staging_copies: self.metrics.staging_copies,
                full_scans: self.metrics.full_scans + 1,
            };
            StringMap::new()
        };
        assert(self@ =~= scan_begun(s, in_force(s, folder@), incremental));
        Scan { incremental, policy, result, cache_changed: false }
    }

    /// Reads a dirty path again during an incremental scan.
    pub fn rescan(&mut self, scan: &mut Scan, path: &str, fact: &PathFact) -> (r: Result<
        (),
        StoreError,
    >)
        requires
            room(old(self)@.metrics, 1, fact_size(fact@)),
        ensures
            scan_remembered(old(self)@, old(scan)@) ==> scan_remembered(final(self)@, final(scan)@),
            ({
                let s = old(self)@;
                let skipped = ignored(s.ignore, path@, false) || fact@ is Missing;
                match r {
                    Err(StoreError::StaleSource(p)) => !skipped && p@ == path@ && (
                    fact@ matches FactView::File { before, after, entry } && before != after)
                        && final(self)@ == s && final(scan)@ == old(scan)@,
                    Err(StoreError::Unsupported(p)) => !skipped && p@ == path@ && fact@ is Other
                        && final(self)@ == s && final(scan)@ == old(scan)@,
                    Err(_) => false,
                    Ok(()) => if skipped {
                        final(self)@ == s && final(scan)@ == old(scan)@
                    } else {
                        fact@ matches FactView::File { before, after, entry } && before == after
                            && final(self)@ == (StoreView {
                            cache: s.cache.insert(path@, CachedView { metadata: after, entry }),
                            metrics: counted_read(s.metrics, entry.size),
                            ..s
                        }) && final(scan)@ == (ScanView {
                            result: old(scan)@.result.insert(path@, entry),
                            cache_changed: true,
                            ..old(scan)@
                        })
                    },
                }
            }),
    {
        if self.excluded(path) {
            return Ok(());
        }
        match fact {
            PathFact::Missing => Ok(()),
            PathFact::Other => Err(StoreError::Unsupported(path.to_owned())),
            PathFact::File { before, after, entry } => {
                if !same_numbers(before, after) {
                    return Err(StoreError::StaleSource(path.to_owned()));
                }
                let ghost s = self@;
                self.count_read(entry.size);
                self.cache.insert(
                    path.to_owned(),
                    CachedEntry { metadata: copy_numbers(after), entry: entry.duplicate() },
                );
                scan.result.insert(path.to_owned(), entry.duplicate());
                scan.cache_changed = true;
                assert(self@ =~= (StoreView {
                    cache: s.cache.insert(path@, CachedView { metadata: after@, entry: entry@ }),
                    metrics: counted_read(s.metrics, entry.size),
                    ..s
                }));
                Ok(())
            },
        }
    }

    /// Decides what the walk of a full scan does at a path.
    pub fn visit(&mut self, scan: &mut Scan, path: &str, kind: FileKind, metadata: &Vec<u64>) -> (r:
        Result<Visit, StoreError>)
        requires
            old(self)@.metrics.files_enumerated < u64::MAX,
        ensures
            scan_remembered(old(self)@, old(scan)@) ==> scan_remembered(final(self)@, final(scan)@),
            (final(self)@, final(scan)@) == after_visit(
                old(self)@,
                old(scan)@,
                path@,
                kind,
                metadata@,
            ),
            match visited(old(self)@, path@, kind, metadata@) {
                Visited::Goes(visit) => r == Ok::<Visit, StoreError>(visit),
                Visited::BadPath => r matches Err(StoreError::Path(e)) && e@
                    == crate::model::ModelFault::Path(path_fault(path@)->0),
                Visited::Symlink => r matches Err(StoreError::Symlink(p)) && p@ == path@,
                Visited::Unsupported => r matches Err(StoreError::Unsupported(p)) && p@ == path@,
            },
    {
        let ghost s = self@;
        let directory = match kind {
            FileKind::Directory => true,
            _ => false,
        };
        if self.ignore.matches(path, directory) {
            return Ok(Visit::Skip);
        }
        match validate_path(path) {
            Ok(()) => {},
            Err(e) => {
                return Err(StoreError::Path(e));
            },
        }
        match kind {
            FileKind::Symlink => Err(StoreError::Symlink(path.to_owned())),
            FileKind::Other => Err(StoreError::Unsupported(path.to_owned())),
            FileKind::Directory => Ok(Visit::Descend),
            FileKind::File => {
                self.metrics = StoreMetrics {
                    files_enumerated: self.metrics.files_enumerated + 1,
                    files_hashed: self.metrics.files_hashed,
                    bytes_hashed: self.metrics.bytes_hashed,
                    staging_copies: self.metrics.staging_copies,
                    full_scans: self.metrics.full_scans,
                };
                assert(self@ =~= (StoreView {
                    metrics: StoreMetrics {
                        files_enumerated: (s.metrics.files_enumerated + 1) as u64,
                        ..s.metrics
                    },
                    ..s
                }));
                match self.cache.get(path) {
                    Some(cached) => {
                        if metadata.len() > 0 && same_numbers(&cached.metadata, metadata) {
                            let entry = cached.entry.duplicate();
                            scan.result.insert(path.to_owned(), entry);
                            proof {
                                assert(self@.cache == s.cache);
                                assert(scan@.result == old(scan)@.result.insert(
                                    path@,
                                    s.cache[path@].entry,
                                ));
                                if scan_remembered(s, old(scan)@) {
                                    assert forall|k: Chars| #[trigger]
                                        scan@.result.dom().contains(k) implies self@.cache.dom().contains(
                                        k,
                                    ) && self@.cache[k].entry == scan@.result[k] by {
                                        assert(k == path@ || old(scan)@.result.dom().contains(k));
                                    }
                                }
                            }
                            return Ok(Visit::Known);
                        }
                    },
                    None => {},
                }
                Ok(Visit::Read)
            },
        }
    }

    /// Takes note of a file that the walk had to read.
    pub fn record(
        &mut self,
        scan: &mut Scan,
        path: &str,
        before: &Vec<u64>,
        after: &Vec<u64>,
        entry: &Entry,
    ) -> (r: Result<(), StoreError>)
        requires
            old(self)@.metrics.files_hashed < u64::MAX,
            old(self)@.metrics.bytes_hashed + entry.size <= u64::MAX,
        ensures
            scan_remembered(old(self)@, old(scan)@) ==> scan_remembered(final(self)@, final(scan)@),
            (final(self)@, final(scan)@) == after_record(
                old(self)@,
                old(scan)@,
                path@,
                before@,
                after@,
                entry@,
            ),
            r is Ok <==> before@ == after@,
            r is Err ==> (r->Err_0 matches StoreError::StaleSource(p) && p@ == path@),
    {
        let ghost s = self@;
        self.metrics = StoreMetrics {
            files_enumerated: self.metrics.files_enumerated,
            files_hashed: self.metrics.files_hashed + 1,
            bytes_hashed: self.metrics.bytes_hashed + entry.size,
            staging_copies: self.metrics.staging_copies,
            full_scans: self.metrics.full_scans,
        };
        let ghost read = self@;
        assert(read =~= (StoreView {
            metrics: StoreMetrics {
                files_hashed: (s.metrics.files_hashed + 1) as u64,
                bytes_hashed: (s.metrics.bytes_hashed + entry.size) as u64,
                ..s.metrics
            },
            ..s
        }));
        if !same_numbers(before, after) {
            return Err(StoreError::StaleSource(path.to_owned()));
        }
        self.cache.insert(
            path.to_owned(),
            CachedEntry { metadata: copy_numbers(after), entry: entry.duplicate() },
        );
        scan.result.insert(path.to_owned(), entry.duplicate());
        scan.cache_changed = true;
        assert(self@ =~= (StoreView {
            cache: s.cache.insert(path@, CachedView { metadata: after@, entry: entry@ }),
            ..read
        }));
        proof {
            if scan_remembered(s, old(scan)@) {
                assert forall|k: Chars| #[trigger]
                    scan@.result.dom().contains(k) implies self@.cache.dom().contains(k)
                    && self@.cache[k].entry == scan@.result[k] by {
                    assert(k == path@ || old(scan)@.result.dom().contains(k));
                }
            }
        }
        Ok(())
    }

    /// Ends a scan. A manifest that cannot be synchronised leaves the store
    /// as it was.
    pub fn finish_scan(&mut self, scan: Scan) -> (r: Result<ScanDone, StoreError>)
        ensures
            r is Ok <==> valid_manifest(scan@.result),
            r is Err ==> (r->Err_0 matches StoreError::Manifest(e) && crate::model::manifest_error(
                scan@.result,
                e@,
            )) && final(self)@ == old(self)@,
            r is Ok ==> {
                &&& r->Ok_0.files@ == scan@.result
                &&& r->Ok_0.persist == scan_persists(old(self)@, scan@)
                &&& r->Ok_0.remove_hint == old(self)@.pending_cache_invalidation
                &&& final(self)@ == scan_finished(old(self)@, scan@)
            },
            r is Ok && scan_remembered(old(self)@, scan@) ==> cached_entries(final(self)@.cache)
                == scan@.result,
    {
        match validate_manifest(&scan.result) {
            Ok(()) => {},
            Err(e) => {
                return Err(StoreError::Manifest(e));
            },
        }
        let ghost s = self@;
        let (kept, dropped) = keep_found(&self.cache, &scan.result);
        let persist = scan.cache_changed || dropped || self.pending_cache_invalidation
            || self.force_full_scan || self.cache_modified || !self.cache_trusted;
        let remove_hint = self.pending_cache_invalidation;
        self.cache = kept;
        self.policy_text = scan.policy;
        self.pending_cache_invalidation = false;
        self.dirty_paths = StringSet::new();
        self.known_dirty_paths = StringSet::new();
        self.force_full_scan = false;
        self.cache_modified = false;
        self.cache_trusted = true;
        proof {
            assert(self@ =~= scan_finished(s, scan@));
            if scan_remembered(s, scan@) {
                assert(cached_entries(self@.cache) =~= scan@.result);
            }
        }
        Ok(ScanDone { files: scan.result, persist, remove_hint })
    }

    /// The paths that have to be read again, in ascending order.
    pub fn dirty(&self) -> (r: Vec<String>)
        ensures
            lists(crate::text::views(r@), self@.dirty_paths),
    {
        self.dirty_paths.to_list()
    }

    /// What is remembered, for storing: the policy and the cache.
    pub fn cache_to_store(&self) -> (r: StoredCache)
        ensures
            crate::config::owned_text(r.policy) == Some(self@.policy_text),
            r.files@ == self@.cache,
    {
        StoredCache { policy: Some(self.policy_text.clone()), files: self.cache.duplicate() }
    }
}

proof fn lemma_facts_size(facts: Seq<PathFact>)
    ensures
        facts_size(facts) >= 0,
    decreases facts.len(),
{
    if facts.len() > 0 {
        lemma_facts_size(facts.drop_first());
    }
}

/// The entries of a cache.
fn entries_of(cache: &StringMap<CachedEntry>) -> (r: Manifest)
    ensures
        r@ == cached_entries(cache@),
{
    let mut r: Manifest = StringMap::new();
    let n: usize = cache.len();
    let ghost order = cache.order();
    let mut i: usize = 0;
    while i < n
        invariant
            order == cache.order(),
            n == order.len(),
            lists(order, cache@.dom()),
            i <= n,
            forall|k: Chars| #[trigger] r@.dom().contains(k) <==> order.take(i as int).contains(k),
            forall|k: Chars| r@.dom().contains(k) ==> #[trigger] r@[k] == cache@[k].entry,
        decreases n - i,
    {
        let key = cache.key_at(i).clone();
        let value = cache.value_at(i).entry.duplicate();
        proof {
            lemma_take_contains(order, i as int);
        }
        r.insert(key, value);
        i = i + 1;
    }
    assert(order.take(n as int) =~= order);
    assert(r@ =~= cached_entries(cache@));
    r
}

/// The part of a cache that a scan found, and whether anything else was there.
fn keep_found(cache: &StringMap<CachedEntry>, found: &Manifest) -> (r: (
    StringMap<CachedEntry>,
    bool,
))
    ensures
        r.0@ == Map::new(
            |k: Chars| cache@.dom().contains(k) && found@.dom().contains(k),
            |k: Chars| cache@[k],
        ),
        r.1 == exists|k: Chars| #[trigger]
            cache@.dom().contains(k) && !found@.dom().contains(k),
{
    let mut kept: StringMap<CachedEntry> = StringMap::new();
    let mut dropped = false;
    let n: usize = cache.len();
    let ghost order = cache.order();
    let mut i: usize = 0;
    while i < n
        invariant
            order == cache.order(),
            n == order.len(),
            lists(order, cache@.dom()),
            i <= n,
            forall|k: Chars| #[trigger]
                kept@.dom().contains(k) <==> order.take(i as int).contains(k)
                    && found@.dom().contains(k),
            forall|k: Chars| kept@.dom().contains(k) ==> #[trigger] kept@[k] == cache@[k],
            dropped == exists|j: int| 0 <= j < i && !found@.dom().contains(#[trigger] order[j]),
        decreases n - i,
    {
        let key = cache.key_at(i);
        proof {
            lemma_take_contains(order, i as int);
        }
        if found.contains(key.as_str()) {
            let value = cache.value_at(i).duplicate();
            kept.insert(key.clone(), value);
        } else {
            assert(!found@.dom().contains(order[i as int]));
            dropped = true;
        }
        i = i + 1;
    }
    proof {
        assert(order.take(n as int) =~= order);
        assert(kept@ =~= Map::new(
            |k: Chars| cache@.dom().contains(k) && found@.dom().contains(k),
            |k: Chars| cache@[k],
        ));
        if dropped {
            let j = choose|j: int| 0 <= j < n && !found@.dom().contains(#[trigger] order[j]);
            assert(order.contains(order[j]));
            assert(cache@.dom().contains(order[j]));
        }
        if exists|k: Chars| #[trigger] cache@.dom().contains(k) && !found@.dom().contains(k) {
            let k = choose|k: Chars| #[trigger]
                cache@.dom().contains(k) && !found@.dom().contains(k);
            assert(order.contains(k));
            let j = choose|j: int| 0 <= j < order.len() && order[j] == k;
            assert(!found@.dom().contains(order[j]));
        }
    }
    (kept, dropped)
}

/// What stands at one component of a path.
#[derive(Clone, Copy, Debug, PartialEq, Eq, Structural)]
pub enum Component {
    Missing,
    File,
    Directory,
    Symlink,
    Other,
}

/// Refuses a component that would lead out of the folder or cannot be what
/// its place asks for. The result says whether a directory has to be made.
pub fn check_component(relative: &str, found: Component, last: bool, create_parents: bool) -> (r:
    Result<bool, StoreError>)
    ensures
        r is Ok <==> found == Component::Missing || (found == Component::Directory && !last) || (
        found == Component::File && last),
        r is Ok ==> r->Ok_0 == (found == Component::Missing && !last && create_parents),
        r is Err ==> match r->Err_0 {
            StoreError::Symlink(p) => found == Component::Symlink && p@ == relative@,
            StoreError::Unsupported(p) => found != Component::Symlink && p@ == relative@,
            _ => false,
        },
{
    match found {
        Component::Missing => Ok(!last && create_parents),
        Component::Symlink => Err(StoreError::Symlink(relative.to_owned())),
        Component::Directory => {
            if last {
                Err(StoreError::Unsupported(relative.to_owned()))
            } else {
                Ok(false)
            }
        },
        Component::File => {
            if last {
                Ok(false)
            } else {
                Err(StoreError::Unsupported(relative.to_owned()))
            }
        },
        Component::Other => Err(StoreError::Unsupported(relative.to_owned())),
    }
}

/// The record of a replacement: which file, where the old version went, and
/// what both versions are.
#[derive(Clone, Debug)]
pub struct RecoveryRecord {
    pub path: String,
    pub backup: String,
    pub finished: bool,
    pub new_hash: Option<String>,
    pub old_hash: Option<String>,
}

/// A version that can be restored, exported or dismissed.
#[derive(Clone, Debug)]
pub struct RecoveryEntry {
    pub id: String,
    pub path: String,
    pub backup_available: bool,
    pub finished: bool,
}

/// A [`RecoveryEntry`] as a mathematical value.
#[verifier::ext_equal]
pub struct RecoveryView {
    pub id: Chars,
    pub path: Chars,
    pub backup_available: bool,
    pub finished: bool,
}

impl View for RecoveryEntry {
    type V = RecoveryView;

    open spec fn view(&self) -> RecoveryView {
        RecoveryView {
            id: self.id@,
            path: self.path@,
            backup_available: self.backup_available,
            finished: self.finished,
        }
    }
}

/// How an installation goes on.
#[derive(Clone, Copy, Debug, PartialEq, Eq, Structural)]
pub enum InstallPlan {
    /// The file is there already: a repeated request is harmless.
    AlreadyThere,
    /// There is no file to displace.
    Create,
    /// The file has to be displaced into the recovery area first.
    Replace,
}

/// How content gets to its place, given what stands there and what was
/// expected there; not at all where something else stands there.
pub open spec fn plan_for(
    now: Option<EntryView>,
    entry: EntryView,
    expected: Option<Chars>,
) -> Option<InstallPlan> {
    if now == Some(entry) {
        Some(InstallPlan::AlreadyThere)
    } else if hash_of(now) != expected {
        None
    } else if now is Some {
        Some(InstallPlan::Replace)
    } else {
        Some(InstallPlan::Create)
    }
}

/// The digest of an optional entry.
pub open spec fn hash_of(e: Option<EntryView>) -> Option<Chars> {
    match e {
        Some(x) => Some(x.hash),
        None => None,
    }
}

/// An optional entry as a mathematical value.
pub open spec fn borrowed_entry(e: Option<&Entry>) -> Option<EntryView> {
    match e {
        Some(x) => Some(x@),
        None => None,
    }
}

impl LocalStore {
    /// Accepts the staged copy of a file that is to be sent. A copy that is
    /// not the announced version makes the path doubtful.
    pub fn snapshot(
        &mut self,
        path: &str,
        expected: &Entry,
        staged: String,
        hash: &str,
        size: u64,
    ) -> (r: Result<VerifiedStaged, StoreError>)
        requires
            room(old(self)@.metrics, 1, size as int),
        ensures
            ({
                let s = old(self)@;
                let copied = StoreView {
                    metrics: StoreMetrics {
                        staging_copies: (s.metrics.staging_copies + 1) as u64,
                        files_hashed: (s.metrics.files_hashed + 1) as u64,
                        bytes_hashed: (s.metrics.bytes_hashed + size) as u64,
                        ..s.metrics
                    },
                    ..s
                };
                if ignored(s.ignore, path@, false) {
                    (r matches Err(StoreError::IgnoredPath(p)) && p@ == path@) && final(self)@ == s
                } else if hash@ != expected.hash@ || size != expected.size {
                    (r matches Err(StoreError::StaleSource(p)) && p@ == path@) && final(self)@
                        == path_reported(copied, path@)
                } else {
                    (r matches Ok(v) && v.checked() == expected@ && v.place() == staged@)
                        && final(self)@ == copied
                }
            }),
    {
        let ghost s = self@;
        if self.excluded(path) {
            return Err(StoreError::IgnoredPath(path.to_owned()));
        }
        self.metrics = StoreMetrics {
            files_enumerated: self.metrics.files_enumerated,
            files_hashed: self.metrics.files_hashed + 1,
            bytes_hashed: self.metrics.bytes_hashed + size,
            staging_copies: self.metrics.staging_copies + 1,
            full_scans: self.metrics.full_scans,
        };
        assert(self@ =~= (StoreView {
            metrics: StoreMetrics {
                staging_copies: (s.metrics.staging_copies + 1) as u64,
                files_hashed: (s.metrics.files_hashed + 1) as u64,
                bytes_hashed: (s.metrics.bytes_hashed + size) as u64,
                ..s.metrics
            },
            ..s
        }));
        match VerifiedStaged::from_digest(staged, expected, hash, size) {
            Ok(v) => Ok(v),
            Err(_) => {
                self.invalidate_path(path);
                Err(StoreError::StaleSource(path.to_owned()))
            },
        }
    }

    /// Decides how staged content gets to its place, given the size of a
    /// fresh copy of it and what stands there now. Only the version that the
    /// sender knew may be replaced.
    pub fn plan_install(
        &self,
        path: &str,
        expected: Option<&str>,
        entry: &Entry,
        staged: &VerifiedStaged,
        copied: u64,
        current: Option<&Entry>,
    ) -> (r: Result<InstallPlan, StoreError>)
        ensures
            ({
                let now = borrowed_entry(current);
                if staged.checked() != entry@ {
                    r matches Err(StoreError::StagedEntry)
                } else if copied != entry.size {
                    r matches Err(StoreError::StagedSize)
                } else if ignored(self@.ignore, path@, false) {
                    r matches Err(StoreError::IgnoredPath(p)) && p@ == path@
                } else {
                    match plan_for(now, entry@, text_of(expected)) {
                        Some(plan) => r == Ok::<InstallPlan, StoreError>(plan),
                        None => r matches Err(StoreError::StaleTarget(p)) && p@ == path@,
                    }
                }
            }),
    {
        if !staged.entry().agrees(entry) {
            return Err(StoreError::StagedEntry);
        }
        if copied != entry.size {
            return Err(StoreError::StagedSize);
        }
        if self.excluded(path) {
            return Err(StoreError::IgnoredPath(path.to_owned()));
        }
        match current {
            Some(now) => {
                if now.agrees(entry) {
                    return Ok(InstallPlan::AlreadyThere);
                }
                match expected {
                    Some(hash) => {
                        if same(now.hash.as_str(), hash) {
                            Ok(InstallPlan::Replace)
                        } else {
                            Err(StoreError::StaleTarget(path.to_owned()))
                        }
                    },
                    None => Err(StoreError::StaleTarget(path.to_owned())),
                }
            },
            None => {
                match expected {
                    Some(_) => Err(StoreError::StaleTarget(path.to_owned())),
                    None => Ok(InstallPlan::Create),
                }
            },
        }
    }

    /// Takes note of an installed file; the result is the durable hint that
    /// replaces the stored one.
    pub fn installed(&mut self, path: &str, stored: CacheInvalidation) -> (r: Option<
        CacheInvalidation,
    >)
        ensures
            final(self)@ == path_reported(old(self)@, path@),
            r is Some,
            r->0.full == (stored.full || vague(path@) || stored.paths@.insert(path@).len()
                > MAX_HINT_PATHS),
            r->0.paths@ == (if r->0.full {
                Set::<Chars>::empty()
            } else {
                stored.paths@.insert(path@)
            }),
    {
        self.invalidate_path(path);
        let mut one = StringSet::new();
        one.insert(path.to_owned());
        proof {
            assert(one@ =~= Set::<Chars>::empty().insert(path@));
            assert(stored.paths@.union(one@) =~= stored.paths@.insert(path@));
            assert(one@.contains(path@));
        }
        stored.queue(false, &one)
    }
}

/// An interrupted replacement has come to an end that can be told: the file is
/// the displaced version, the old one or the new one, or there never was one.
pub open spec fn told(
    was: Option<Chars>,
    new: Option<Chars>,
    now: Option<Chars>,
    backup: Option<Chars>,
    backup_exists: bool,
) -> bool {
    if now is Some {
        backup == now || (!backup_exists && was == now) || new == now
    } else {
        was is None && !backup_exists
    }
}

/// Whether a record is settled once a decision about it was carried out.
pub open spec fn closed_by(finished: bool, action: RecoveryAction) -> bool {
    finished || action == RecoveryAction::Keep || action == RecoveryAction::Restore
}

impl RecoveryRecord {
    /// The record of a replacement that begins.
    pub fn begin(id: String, path: &str, entry: &Entry, current: Option<&Entry>) -> (r: Self)
        ensures
            r.path@ == path@,
            r.backup@ == id@,
            !r.finished,
            crate::config::owned_text(r.new_hash) == Some(entry.hash@),
            crate::config::owned_text(r.old_hash) == hash_of(borrowed_entry(current)),
    {
        RecoveryRecord {
            path: path.to_owned(),
            backup: id,
            finished: false,
            new_hash: Some(entry.hash.clone()),
            old_hash: match current {
                Some(e) => Some(e.hash.clone()),
                None => None,
            },
        }
    }

    /// Whether the displaced file is the version that was to be replaced.
    pub fn displaced_as_expected(displaced: &str, expected: Option<&str>) -> (r: bool)
        ensures
            r == (text_of(expected) == Some(displaced@)),
    {
        match expected {
            Some(e) => same(e, displaced),
            None => false,
        }
    }

    /// Whether an interrupted replacement has to bring the old version back.
    pub fn needs_restore(&self, target_exists: bool, backup_is_file: bool) -> (r: bool)
        ensures
            r == (!self.finished && !target_exists && backup_is_file),
    {
        !self.finished && !target_exists && backup_is_file
    }

    /// Whether an interrupted replacement has come to an end that can be told:
    /// the file is the old version or the new one, or there never was one.
    /// `current` and `backup` are the digests of the two files.
    pub fn settle(
        &mut self,
        current: Option<&str>,
        backup: Option<&str>,
        backup_exists: bool,
    ) -> (r: Result<(), StoreError>)
        ensures
            final(self).path == old(self).path,
            final(self).backup == old(self).backup,
            final(self).new_hash == old(self).new_hash,
            final(self).old_hash == old(self).old_hash,
            ({
                let told = told(
                    crate::config::owned_text(old(self).old_hash),
                    crate::config::owned_text(old(self).new_hash),
                    text_of(current),
                    text_of(backup),
                    backup_exists,
                );
                &&& r is Ok <==> old(self).finished || told
                &&& final(self).finished == (old(self).finished || told)
            }),
            r is Err ==> (r->Err_0 matches StoreError::RecoveryRequired(p) && p@
                == old(self).path@),
    {
        if self.finished {
            return Ok(());
        }
        let told = match current {
            Some(now) => {
                let restored = match backup {
                    Some(b) => same(b, now),
                    None => false,
                };
                let untouched = !backup_exists && matches_text(&self.old_hash, now);
                restored || untouched || matches_text(&self.new_hash, now)
            },
            None => self.old_hash.is_none() && !backup_exists,
        };
        if told {
            self.finished = true;
            Ok(())
        } else {
            Err(StoreError::RecoveryRequired(self.path.clone()))
        }
    }

    /// Whether a record can be listed, and how it is.
    pub fn listed(&self, backup_exists: bool) -> (r: Result<Option<RecoveryEntry>, StoreError>)
        ensures
            r is Ok <==> valid_hash(self.backup@),
            r is Err ==> (r->Err_0 matches StoreError::Path(e) && e@
                == crate::model::ModelFault::Hash),
            r is Ok ==> (r->Ok_0 is Some <==> backup_exists || !self.finished),
            r is Ok && r->Ok_0 is Some ==> r->Ok_0->0@ == (RecoveryView {
                id: self.backup@,
                path: self.path@,
                backup_available: backup_exists,
                finished: self.finished,
            }),
    {
        if !is_hash(self.backup.as_str()) {
            return Err(StoreError::Path(ModelError::Hash));
        }
        if backup_exists || !self.finished {
            Ok(
                Some(
                    RecoveryEntry {
                        id: self.backup.clone(),
                        path: self.path.clone(),
                        backup_available: backup_exists,
                        finished: self.finished,
                    },
                ),
            )
        } else {
            Ok(None)
        }
    }

    /// What a decision about a record asks for.
    pub fn resolve(&self, id: &str, action: &str, has_output: bool) -> (r: Result<
        RecoveryAction,
        StoreError,
    >)
        ensures
            r is Ok <==> valid_hash(id@) && self.backup@ == id@ && (action@ == "keep"@ || action@
                == "restore"@ || (action@ == "export"@ && has_output)),
            r is Ok ==> r->Ok_0 == (if action@ == "keep"@ {
                RecoveryAction::Keep
            } else if action@ == "restore"@ {
                RecoveryAction::Restore
            } else {
                RecoveryAction::Export
            }),
            r is Err ==> match r->Err_0 {
                StoreError::Path(e) => e@ == crate::model::ModelFault::Hash && !valid_hash(id@),
                StoreError::RecoveryIdentity => valid_hash(id@) && self.backup@ != id@,
                StoreError::ExportDestination => valid_hash(id@) && self.backup@ == id@ && action@ == "export"@
                    && !has_output,
                StoreError::RecoveryAction => valid_hash(id@) && self.backup@ == id@ && action@ != "keep"@ && action@
                    != "restore"@ && action@ != "export"@,
                _ => false,
            },
    {
        proof {
            reveal_strlit("keep");
            reveal_strlit("restore");
            reveal_strlit("export");
            assert("keep"@.len() == 4 && "restore"@.len() == 7 && "export"@.len() == 6);
        }
        if !is_hash(id) {
            return Err(StoreError::Path(ModelError::Hash));
        }
        if !same(self.backup.as_str(), id) {
            return Err(StoreError::RecoveryIdentity);
        }
        if same(action, "keep") {
            Ok(RecoveryAction::Keep)
        } else if same(action, "export") {
            if has_output {
                Ok(RecoveryAction::Export)
            } else {
                Err(StoreError::ExportDestination)
            }
        } else if same(action, "restore") {
            Ok(RecoveryAction::Restore)
        } else {
            Err(StoreError::RecoveryAction)
        }
    }

    /// Takes note of a decision that was carried out: a version that was kept
    /// or restored is settled, one that was exported is as open as before.
    pub fn resolved(&mut self, action: RecoveryAction)
        ensures
            final(self).finished == closed_by(old(self).finished, action),
            final(self).path == old(self).path,
            final(self).backup == old(self).backup,
            final(self).new_hash == old(self).new_hash,
            final(self).old_hash == old(self).old_hash,
    {
        match action {
            RecoveryAction::Keep => {
                self.finished = true;
            },
            RecoveryAction::Restore => {
                self.finished = true;
            },
            RecoveryAction::Export => {},
        }
    }

    /// The version that a restored one replaces: the present one.
    pub fn replaced_by_restore(current: Option<&Entry>) -> (r: Option<String>)
        ensures
            crate::config::owned_text(r) == hash_of(borrowed_entry(current)),
    {
        match current {
            Some(entry) => Some(entry.hash.clone()),
            None => None,
        }
    }

    /// Whether a record and its backup may be removed: only after a decision.
    pub fn cleanup_recovery(&self, id: &str) -> (r: Result<(), StoreError>)
        ensures
            r is Ok <==> valid_hash(id@) && self.backup@ == id@ && self.finished,
            r is Err ==> match r->Err_0 {
                StoreError::Path(e) => e@ == crate::model::ModelFault::Hash && !valid_hash(id@),
                StoreError::RecoveryIdentity => valid_hash(id@) && self.backup@ != id@,
                StoreError::RecoveryPending => valid_hash(id@) && self.backup@ == id@
                    && !self.finished,
                _ => false,
            },
    {
        if !is_hash(id) {
            return Err(StoreError::Path(ModelError::Hash));
        }
        if !same(self.backup.as_str(), id) {
            return Err(StoreError::RecoveryIdentity);
        }
        if !self.finished {
            return Err(StoreError::RecoveryPending);
        }
        Ok(())
    }
}

/// What is done with a recovered version.
#[derive(Clone, Copy, Debug, PartialEq, Eq, Structural)]
pub enum RecoveryAction {
    Keep,
    Restore,
    Export,
}

/// Whether an optional string is a given one.
fn matches_text(a: &Option<String>, b: &str) -> (r: bool)
    ensures
        r == (crate::config::owned_text(*a) == Some(b@)),
{
    match a {
        Some(x) => same(x.as_str(), b),
        None => false,
    }
}

/// No version stands behind one whose path comes after its own.
pub open spec fn paths_sorted(v: Seq<RecoveryView>) -> bool {
    forall|i: int, j: int|
        #![trigger v[i], v[j]]
        0 <= i < j < v.len() ==> !before(v[j].path, v[i].path)
}

/// A list with one more version, behind all whose paths do not come after its
/// own.
pub open spec fn filed(list: Seq<RecoveryView>, x: RecoveryView) -> Seq<RecoveryView>
    decreases list.len(),
{
    if list.len() == 0 || !before(x.path, list.last().path) {
        list.push(x)
    } else {
        filed(list.drop_last(), x).push(list.last())
    }
}

/// Versions in ascending order of their paths; those with the same path keep
/// their order.
pub open spec fn by_path(list: Seq<RecoveryView>) -> Seq<RecoveryView>
    decreases list.len(),
{
    if list.len() == 0 {
        Seq::empty()
    } else {
        filed(by_path(list.drop_last()), list.last())
    }
}

proof fn lemma_filed(list: Seq<RecoveryView>, x: RecoveryView)
    requires
        paths_sorted(list),
    ensures
        paths_sorted(filed(list, x)),
        filed(list, x).to_multiset() == list.to_multiset().insert(x),
        forall|i: int|
            0 <= i < filed(list, x).len() ==> #[trigger] filed(list, x)[i] == x || list.contains(
                filed(list, x)[i],
            ),
    decreases list.len(),
{
    broadcast use vstd::seq_lib::group_to_multiset_ensures;

    let r = filed(list, x);
    if list.len() == 0 || !before(x.path, list.last().path) {
        assert forall|i: int, j: int| #![trigger r[i], r[j]] 0 <= i < j < r.len() implies !before(
            r[j].path,
            r[i].path,
        ) by {
            if j < list.len() {
                assert(r[i] == list[i] && r[j] == list[j]);
            } else {
                assert(r[i] == list[i]);
                if i < list.len() - 1 {
                    assert(!before(list[list.len() - 1].path, list[i].path));
                    if before(x.path, list[i].path) {
                        lemma_before_total(list[i].path, list.last().path);
                        if list[i].path != list.last().path {
                            crate::text::lemma_before_transitive(
                                x.path,
                                list[i].path,
                                list.last().path,
                            );
                        }
                    }
                }
            }
        }
        assert forall|i: int| 0 <= i < r.len() implies #[trigger] r[i] == x || list.contains(r[i]) by {
            if i < list.len() {
                assert(list[i] == r[i]);
            }
        }
    } else {
        let less = list.drop_last();
        let last = list.last();
        let inner = filed(less, x);
        assert(paths_sorted(less)) by {
            assert forall|i: int, j: int|
                #![trigger less[i], less[j]]
                0 <= i < j < less.len() implies !before(less[j].path, less[i].path) by {
                assert(less[i] == list[i] && less[j] == list[j]);
            }
        }
        lemma_filed(less, x);
        assert forall|i: int, j: int| #![trigger r[i], r[j]] 0 <= i < j < r.len() implies !before(
            r[j].path,
            r[i].path,
        ) by {
            if j < inner.len() {
                assert(r[i] == inner[i] && r[j] == inner[j]);
            } else {
                assert(r[i] == inner[i]);
                if inner[i] == x {
                    crate::text::lemma_before_asymmetric(x.path, last.path);
                } else {
                    assert(less.contains(inner[i]));
                    let k = choose|k: int| 0 <= k < less.len() && less[k] == inner[i];
                    assert(list[k] == inner[i]);
                    assert(!before(list[list.len() - 1].path, list[k].path));
                }
            }
        }
        assert(less.push(last) =~= list);
        assert(list.to_multiset() =~= less.to_multiset().insert(last));
        assert(r.to_multiset() =~= list.to_multiset().insert(x));
        assert forall|i: int| 0 <= i < r.len() implies #[trigger] r[i] == x || list.contains(r[i]) by {
            if i < inner.len() {
                assert(r[i] == inner[i]);
                if inner[i] != x {
                    let k = choose|k: int| 0 <= k < less.len() && less[k] == inner[i];
                    assert(list[k] == inner[i]);
                }
            } else {
                assert(list[list.len() - 1] == r[i]);
            }
        }
    }
}

/// Listing versions by path loses none, and brings their paths in order.
pub proof fn law_versions_by_path(list: Seq<RecoveryView>)
    ensures
        paths_sorted(by_path(list)),
        by_path(list).to_multiset() == list.to_multiset(),
    decreases list.len(),
{
    broadcast use vstd::seq_lib::group_to_multiset_ensures;

    if list.len() > 0 {
        let less = list.drop_last();
        law_versions_by_path(less);
        lemma_filed(by_path(less), list.last());
        assert(less.push(list.last()) =~= list);
    } else {
        assert(list =~= Seq::<RecoveryView>::empty());
    }
}

proof fn lemma_filed_at(list: Seq<RecoveryView>, x: RecoveryView, at: int)
    requires
        0 <= at <= list.len(),
        at > 0 ==> !before(x.path, list[at - 1].path),
        forall|k: int| at <= k < list.len() ==> before(x.path, (#[trigger] list[k]).path),
    ensures
        filed(list, x) == list.insert(at, x),
    decreases list.len(),
{
    if at == list.len() {
        assert(list.insert(at, x) =~= list.push(x));
    } else {
        let less = list.drop_last();
        assert(before(x.path, list[list.len() - 1].path));
        assert forall|k: int| at <= k < less.len() implies before(x.path, (#[trigger] less[k]).path) by {
            assert(less[k] == list[k]);
        }
        lemma_filed_at(less, x, at);
        assert(list.insert(at, x) =~= less.insert(at, x).push(list.last()));
    }
}

fn file_version(list: &mut Vec<RecoveryEntry>, item: RecoveryEntry)
    ensures
        seen(final(list)@) == filed(seen(old(list)@), item@),
{
    let mut at: usize = list.len();
    let mut going = true;
    while going
        invariant
            *list == *old(list),
            at <= list@.len(),
            forall|k: int|
                at <= k < list@.len() ==> before(item@.path, (#[trigger] seen(list@)[k]).path),
            !going ==> (at > 0 ==> !before(item@.path, seen(list@)[at - 1].path)),
        decreases
                at,
                if going {
                    1int
                } else {
                    0
                },
    {
        if at == 0 {
            going = false;
        } else {
            assert(seen(list@)[at - 1] == list@[at - 1]@);
            match compare(item.path.as_str(), list[at - 1].path.as_str()) {
                Side::Less => {
                    at = at - 1;
                },
                _ => {
                    proof {
                        lemma_before_irreflexive(item@.path);
                        if before(item@.path, list@[at - 1].path@) {
                            crate::text::lemma_before_asymmetric(item@.path, list@[at - 1].path@);
                        }
                    }
                    going = false;
                },
            }
        }
    }
    proof {
        lemma_filed_at(seen(list@), item@, at as int);
        assert(seen(list@.insert(at as int, item)) =~= seen(list@).insert(at as int, item@));
    }
    list.insert(at, item);
}

impl Duplicate for RecoveryEntry {
    fn duplicate(&self) -> (r: Self) {
        RecoveryEntry {
            id: self.id.clone(),
            path: self.path.clone(),
            backup_available: self.backup_available,
            finished: self.finished,
        }
    }
}

/// Versions in ascending order of their paths.
pub fn recovery_entries(list: &Vec<RecoveryEntry>) -> (r: Vec<RecoveryEntry>)
    ensures
        seen(r@) == by_path(seen(list@)),
{
    let ghost all = seen(list@);
    let mut out: Vec<RecoveryEntry> = Vec::new();
    let mut i: usize = 0;
    assert(all.take(0) =~= Seq::<RecoveryView>::empty());
    assert(seen(out@) =~= Seq::<RecoveryView>::empty());
    while i < list.len()
        invariant
            i <= list@.len(),
            all == seen(list@),
            seen(out@) == by_path(all.take(i as int)),
        decreases list@.len() - i,
    {
        assert(all.take(i + 1).drop_last() =~= all.take(i as int));
        assert(all.take(i + 1).last() == list@[i as int]@);
        let item = list[i].duplicate();
        file_version(&mut out, item);
        i = i + 1;
    }
    assert(all.take(i as int) =~= all);
    out
}

/// What is found where a Share's folder should be.
#[derive(Clone, Copy, Debug, PartialEq, Eq, Structural)]
pub struct RootFound {
    pub folder: bool,
    /// The path leads to itself, not by a link to another place.
    pub canonical: bool,
    /// The folder's own data lie behind a link.
    pub private_is_link: bool,
}

/// Why a folder cannot be opened, if it cannot. One that may be created is
/// created; any other must be there, under the path that is known.
pub open spec fn root_fault(create: bool, found: RootFound) -> Option<RootFault> {
    if !create && !found.folder {
        Some(RootFault::Unavailable)
    } else if !create && !found.canonical {
        Some(RootFault::Changed)
    } else if found.private_is_link {
        Some(RootFault::PrivateIsLink)
    } else {
        None
    }
}

/// Why a folder cannot be opened.
#[derive(Clone, Copy, Debug, PartialEq, Eq, Structural)]
pub enum RootFault {
    Unavailable,
    Changed,
    PrivateIsLink,
}

/// Checks a folder before it is opened; the result says whether it has to be
/// created.
pub fn check_root(create: bool, found: RootFound) -> (r: Result<bool, RootFault>)
    ensures
        match r {
            Ok(made) => root_fault(create, found) is None && made == (create && !found.folder),
            Err(e) => root_fault(create, found) == Some(e),
        },
{
    if !create && !found.folder {
        return Err(RootFault::Unavailable);
    }
    if !create && !found.canonical {
        return Err(RootFault::Changed);
    }
    if found.private_is_link {
        return Err(RootFault::PrivateIsLink);
    }
    Ok(create && !found.folder)
}

impl LocalStore {
    /// A staged copy was made for an installation.
    pub fn count_copy(&mut self)
        requires
            old(self)@.metrics.staging_copies < u64::MAX,
        ensures
            final(self)@ == (StoreView {
                metrics: StoreMetrics {
                    staging_copies: (old(self)@.metrics.staging_copies + 1) as u64,
                    ..old(self)@.metrics
                },
                ..old(self)@
            }),
    {
        let ghost s = self@;
        self.metrics.staging_copies = self.metrics.staging_copies + 1;
        assert(self@ =~= (StoreView {
            metrics: StoreMetrics {
                staging_copies: (s.metrics.staging_copies + 1) as u64,
                ..s.metrics
            },
            ..s
        }));
    }

    /// The file at the target, or the displaced one, was read.
    pub fn count_hash(&mut self, size: u64)
        requires
            old(self)@.metrics.files_hashed < u64::MAX,
            old(self)@.metrics.bytes_hashed + size <= u64::MAX,
        ensures
            final(self)@ == (StoreView {
                metrics: StoreMetrics {
                    files_hashed: (old(self)@.metrics.files_hashed + 1) as u64,
                    bytes_hashed: (old(self)@.metrics.bytes_hashed + size) as u64,
                    ..old(self)@.metrics
                },
                ..old(self)@
            }),
    {
        let ghost s = self@;
        self.metrics.files_hashed = self.metrics.files_hashed + 1;
        self.metrics.bytes_hashed = self.metrics.bytes_hashed + size;
        assert(self@ =~= (StoreView {
            metrics: StoreMetrics {
                files_hashed: (s.metrics.files_hashed + 1) as u64,
                bytes_hashed: (s.metrics.bytes_hashed + size) as u64,
                ..s.metrics
            },
            ..s
        }));
    }
}

/// A path that was reported is looked at again, with all that lies below it:
/// nothing of it is remembered, and it stays known as changed until the next
/// look. What lies elsewhere is still remembered. A path that is none of a
/// Share means that everything is looked at.
pub proof fn law_reported_path_is_forgotten(s: StoreView, path: Chars, rest: Chars, other: Chars)
    ensures
        ({
            let t = path_reported(s, path);
            &&& !t.cache.dom().contains(path)
            &&& !t.cache.dom().contains(path + seq!['/'] + rest)
            &&& t.cache.dom().contains(other) ==> s.cache.dom().contains(other) && t.cache[other]
                == s.cache[other]
            &&& s.cache.dom().contains(other) && !t.cache.dom().contains(other) ==> other == path
                || exists|r: Chars| other == #[trigger] (path + seq!['/'] + r)
            &&& t.known_dirty_paths == s.known_dirty_paths.insert(path)
            &&& path_fault(path) is None ==> t.dirty_paths == s.dirty_paths.insert(path)
                && t.force_full_scan == s.force_full_scan
            &&& path_fault(path) is Some ==> t.force_full_scan
            &&& s.cache.dom().contains(path) ==> t.cache_modified
            &&& t.policy_text == s.policy_text && t.ignore == s.ignore && t.cache_trusted
                == s.cache_trusted
        }),
{
    let below = path + seq!['/'] + rest;
    assert(below.take(path.len() as int) =~= path);
    assert(below[path.len() as int] == '/');
    assert(touched(path, below));
    assert(touched(path, path));
    if s.cache.dom().contains(other) && touched(path, other) && other != path {
        let r = other.skip(path.len() as int + 1);
        assert(other =~= path + seq!['/'] + r);
    }
}

/// A hint that another run left behind is believed: the paths that it names are
/// looked at again, and where it says that everything changed, names a path
/// that is none of a Share, or cannot be read, nothing is remembered.
pub proof fn law_hints_are_believed(s: StoreView, h: Hint, p: Chars)
    ensures
        ({
            let t = hinted(s, h);
            &&& h is Absent ==> t == s
            &&& h is Unreadable ==> t.force_full_scan && !t.cache.dom().contains(p)
            &&& h matches Hint::Stored(c) ==> {
                &&& c.full ==> t.force_full_scan && !t.cache.dom().contains(p)
                &&& c.paths@.contains(p) && path_fault(p) is Some ==> t.force_full_scan
                &&& c.paths@.contains(p) ==> !t.cache.dom().contains(p) && (t.force_full_scan || (
                t.dirty_paths.contains(p) && t.known_dirty_paths.contains(p)))
            }
            &&& !(h is Absent) ==> t.pending_cache_invalidation
        }),
{
    assert(touched(p, p));
}

/// A look at single paths is not enough where something is in doubt: where
/// everything was reported, where a reported path is none of a Share, where the
/// policy changed, where what is remembered is not trusted, or where changes
/// may have been missed.
pub proof fn law_doubt_means_a_whole_look(s: StoreView, path: Chars, policy: Chars, settled: bool)
    ensures
        !incremental_scan(all_reported(s), policy, settled),
        path_fault(path) is Some ==> !incremental_scan(path_reported(s, path), policy, settled),
        policy != s.policy_text ==> !incremental_scan(s, policy, settled),
        !s.cache_trusted || !s.incremental_allowed || !settled ==> !incremental_scan(
            s,
            policy,
            settled,
        ),
        s.incremental_allowed && s.cache_trusted && !s.force_full_scan && settled
            ==> incremental_scan(s, s.policy_text, settled),
        !delta_ready(all_reported(s), policy),
        path_fault(path) is Some ==> !delta_ready(path_reported(s, path), policy),
        s.policy_override is None && policy != s.policy_text ==> !delta_ready(s, policy),
        !s.cache_trusted || !s.incremental_allowed ==> !delta_ready(s, policy),
{
}

/// A path at which a look can tell what stands there.
spec fn readable(patterns: Seq<Chars>, path: Chars, fact: FactView) -> bool {
    !ignored(patterns, path, false) && !(fact is Other) && (fact is File ==> fact->before
        == fact->after)
}

proof fn lemma_delta(
    s: StoreView,
    files: Map<Chars, EntryView>,
    order: Seq<Chars>,
    facts: Seq<PathFact>,
    i: int,
)
    requires
        order.no_duplicates(),
        order.len() == facts.len(),
        0 <= i <= order.len(),
    ensures
        ({
            let (t, end) = delta_run(s, files, order, facts, i);
            &&& end is Files <==> forall|k: int|
                i <= k < order.len() ==> readable(s.ignore, #[trigger] order[k], facts[k]@)
            &&& end matches DeltaEnd::Stale(p) ==> exists|k: int|
                i <= k < order.len() && #[trigger] order[k] == p && facts[k]@ is File
                    && facts[k]@->before != facts[k]@->after
            &&& end matches DeltaEnd::Files(found) ==> {
                &&& t.dirty_paths == Set::<Chars>::empty()
                &&& t.known_dirty_paths == Set::<Chars>::empty()
                &&& forall|p: Chars|
                    !order.skip(i).contains(p) ==> #[trigger] look(found, p) == look(files, p)
                        && look(t.cache, p) == look(s.cache, p)
                &&& forall|k: int|
                    i <= k < order.len() ==> match facts[k]@ {
                        FactView::File { before, after, entry } => look(
                            found,
                            #[trigger] order[k],
                        ) == Some(entry) && look(t.cache, order[k]) == Some(
                            CachedView { metadata: after, entry },
                        ),
                        _ => look(found, order[k]) == look(files, order[k]) && look(
                            t.cache,
                            order[k],
                        ) is None,
                    }
            }
        }),
    decreases order.len() - i,
{
    if i < order.len() {
        let p = order[i];
        let rest = order.skip(i + 1);
        assert(order.skip(i) =~= seq![p] + rest);
        assert(!rest.contains(p)) by {
            if rest.contains(p) {
                let k = choose|k: int| 0 <= k < rest.len() && rest[k] == p;
                assert(order[i + 1 + k] == order[i]);
            }
        }
        assert forall|q: Chars| #[trigger] order.skip(i).contains(q) <==> q == p || rest.contains(
            q,
        ) by {
            if order.skip(i).contains(q) {
                let k = choose|k: int| 0 <= k < order.skip(i).len() && order.skip(i)[k] == q;
                if k > 0 {
                    assert(rest[k - 1] == q);
                }
            }
            if rest.contains(q) {
                let k = choose|k: int| 0 <= k < rest.len() && rest[k] == q;
                assert(order.skip(i)[k + 1] == q);
            }
            assert(order.skip(i)[0] == p);
        }
        let here = readable(s.ignore, p, facts[i]@);
        assert((forall|k: int|
            i <= k < order.len() ==> readable(s.ignore, #[trigger] order[k], facts[k]@)) <==> here
            && forall|k: int|
            i + 1 <= k < order.len() ==> readable(s.ignore, #[trigger] order[k], facts[k]@)) by {
            if forall|k: int|
                i <= k < order.len() ==> readable(s.ignore, #[trigger] order[k], facts[k]@) {
                assert(readable(s.ignore, order[i], facts[i]@));
            }
        }
        if !ignored(s.ignore, p, false) {
            match facts[i]@ {
                FactView::Missing => {
                    let s1 = StoreView { cache: s.cache.remove(p), ..s };
                    lemma_delta(s1, files, order, facts, i + 1);
                },
                FactView::Other => {},
                FactView::File { before, after, entry } => {
                    if before == after {
                        let s1 = StoreView {
                            cache: s.cache.insert(p, CachedView { metadata: after, entry }),
                            metrics: counted_read(s.metrics, entry.size),
                            ..s
                        };
                        lemma_delta(s1, files.insert(p, entry), order, facts, i + 1);
                    } else {
                        assert(order[i] == p);
                    }
                },
            }
        }
    }
}

/// A look at single paths tells what stands there: it succeeds exactly where
/// nothing is in doubt, no path is ignored or something else than a file, and
/// no file changes while it is read. It then names each file that is there with
/// its content and no other path, remembers just that, and no change is left
/// to look at.
pub proof fn law_single_paths_are_told(
    s: StoreView,
    folder: Chars,
    paths: Set<Chars>,
    order: Seq<Chars>,
    facts: Seq<PathFact>,
    p: Chars,
)
    requires
        lists(order, paths),
        order.len() == facts.len(),
    ensures
        ({
            let (t, end) = delta_scanned(s, folder, paths, order, facts);
            &&& end is Files <==> delta_ready(s, folder) && forall|k: int|
                0 <= k < order.len() ==> path_fault(#[trigger] order[k]) is None && !ignored(
                    s.ignore,
                    order[k],
                    false,
                ) && !(facts[k]@ is Other) && (facts[k]@ is File ==> facts[k]@->before
                    == facts[k]@->after)
            &&& end matches DeltaEnd::Files(found) ==> {
                &&& found.dom().contains(p) <==> exists|k: int|
                    0 <= k < order.len() && #[trigger] order[k] == p && facts[k]@ is File
                &&& forall|k: int| #![trigger order[k]]
                    0 <= k < order.len() && facts[k]@ is File ==> found[order[k]]
                        == facts[k]@->entry && look(t.cache, order[k]) == Some(
                        CachedView { metadata: facts[k]@->after, entry: facts[k]@->entry },
                    )
                &&& forall|k: int| #![trigger order[k]]
                    0 <= k < order.len() && facts[k]@ is Missing ==> look(t.cache, order[k]) is None
                &&& !paths.contains(p) ==> look(t.cache, p) == look(s.cache, p)
                &&& t.dirty_paths == Set::<Chars>::empty()
                &&& t.known_dirty_paths == Set::<Chars>::empty()
            }
        }),
{
    let (t, end) = delta_scanned(s, folder, paths, order, facts);
    crate::collections::lemma_ascending_distinct(order);
    let unsound = exists|q: Chars| #[trigger] paths.contains(q) && path_fault(q) is Some;
    assert(unsound <==> exists|k: int|
        0 <= k < order.len() && path_fault(#[trigger] order[k]) is Some) by {
        if unsound {
            let q = choose|q: Chars| #[trigger] paths.contains(q) && path_fault(q) is Some;
            assert(order.contains(q));
            let k = choose|k: int| 0 <= k < order.len() && order[k] == q;
            assert(path_fault(order[k]) is Some);
        }
        if exists|k: int| 0 <= k < order.len() && path_fault(#[trigger] order[k]) is Some {
            let k = choose|k: int| 0 <= k < order.len() && path_fault(#[trigger] order[k]) is Some;
            assert(order.contains(order[k]));
            assert(paths.contains(order[k]));
        }
    }
    if delta_ready(s, folder) && !unsound {
        let none = Map::<Chars, EntryView>::empty();
        lemma_delta(s, none, order, facts, 0);
        assert(order.skip(0) =~= order);
        if let DeltaEnd::Files(found) = end {
            assert(paths.contains(p) <==> order.contains(p));
            if order.contains(p) {
                let k = choose|k: int| 0 <= k < order.len() && order[k] == p;
                assert(order[k] == p);
                assert(found.dom().contains(p) <==> look(found, p) is Some);
            } else {
                assert(look(found, p) == look(none, p));
            }
            assert forall|k: int| #![trigger order[k]]
                0 <= k < order.len() && facts[k]@ is File implies found[order[k]]
                == facts[k]@->entry && look(t.cache, order[k]) == Some(
                CachedView { metadata: facts[k]@->after, entry: facts[k]@->entry },
            ) by {
                assert(look(found, order[k]) == Some(facts[k]@->entry));
            }
        }
    }
}

/// A file is read unless it is remembered with the marks that it has now; and
/// whatever is neither a file nor a folder stops the look.
pub proof fn law_changed_file_is_read(s: StoreView, path: Chars, marks: Seq<u64>)
    requires
        !ignored(s.ignore, path, false),
        !ignored(s.ignore, path, true),
        path_fault(path) is None,
    ensures
        !s.cache.dom().contains(path) || s.cache[path].metadata != marks || marks.len() == 0
            ==> visited(s, path, FileKind::File, marks) == Visited::Goes(Visit::Read),
        s.cache.dom().contains(path) && s.cache[path].metadata == marks && marks.len() > 0
            ==> visited(s, path, FileKind::File, marks) == Visited::Goes(Visit::Known),
        visited(s, path, FileKind::Directory, marks) == Visited::Goes(Visit::Descend),
        visited(s, path, FileKind::Symlink, marks) == Visited::Symlink,
        visited(s, path, FileKind::Other, marks) == Visited::Unsupported,
{
}

/// After a whole look, a second one reads no file that did not change: what was
/// found is remembered, nothing else is, and nothing is known as changed.
pub proof fn law_second_look_reads_nothing(s: StoreView, scan: ScanView, path: Chars)
    requires
        scan_remembered(s, scan),
        s.ignore == patterns_of(lines_of(scan.policy)),
    ensures
        ({
            let t = scan_finished(s, scan);
            &&& t.cache.dom().contains(path) <==> scan.result.dom().contains(path)
            &&& scan.result.dom().contains(path) ==> t.cache[path].entry == scan.result[path]
                && t.cache[path].metadata == s.cache[path].metadata
            &&& scan.result.dom().contains(path) && s.cache[path].metadata.len() > 0 && !ignored(
                s.ignore,
                path,
                false,
            ) && path_fault(path) is None ==> visited(
                t,
                path,
                FileKind::File,
                s.cache[path].metadata,
            ) == Visited::Goes(Visit::Known)
            &&& !t.dirty_paths.contains(path) && !t.known_dirty_paths.contains(path)
            &&& t.incremental_allowed ==> incremental_scan(t, scan.policy, true)
            &&& t.ignore == s.ignore
        }),
{
}

/// A version is written only over what it was made for: where the file has
/// other content, or is missing, and that is not expected, nothing is written,
/// and where it has the wanted content already, nothing needs to be.
pub proof fn law_install_writes_over_what_it_knows(
    now: Option<EntryView>,
    entry: EntryView,
    expected: Option<Chars>,
)
    ensures
        ({
            let plan = plan_for(now, entry, expected);
            &&& plan == Some(InstallPlan::AlreadyThere) <==> now == Some(entry)
            &&& plan == Some(InstallPlan::Create) <==> now is None && expected is None
            &&& plan == Some(InstallPlan::Replace) <==> now is Some && now != Some(entry) && expected
                == Some(now->0.hash)
            &&& plan is None <==> now != Some(entry) && match now {
                Some(e) => expected != Some(e.hash),
                None => expected is Some,
            }
        }),
{
}

/// A Share's folder has to be there, and the same as before, unless it may be
/// made; and the library's own folder in it may never be a link.
pub proof fn law_folder_is_checked(create: bool, found: RootFound)
    ensures
        root_fault(create, found) is None <==> !found.private_is_link && (create || (found.folder
            && found.canonical)),
        !create && !found.folder ==> root_fault(create, found) == Some(RootFault::Unavailable),
{
}

/// What a whole look changed in the memory is kept for the next run, and where
/// nothing changed, nothing need be.
pub proof fn law_memory_is_kept(s: StoreView, scan: ScanView, p: Chars)
    ensures
        scan.cache_changed ==> scan_persists(s, scan),
        s.cache.dom().contains(p) && !scan.result.dom().contains(p) ==> scan_persists(s, scan),
        s.force_full_scan || s.pending_cache_invalidation || s.cache_modified || !s.cache_trusted
            ==> scan_persists(s, scan),
        scan_persists(s, scan) || scan_finished(s, scan).cache == s.cache,
        !scan.cache_changed && !s.force_full_scan && !s.pending_cache_invalidation
            && !s.cache_modified && s.cache_trusted && s.cache.dom().subset_of(scan.result.dom())
            ==> !scan_persists(s, scan),
{
    if !scan_persists(s, scan) {
        assert(scan_finished(s, scan).cache =~= s.cache);
    }
}

/// A stored version is settled once it was kept or restored, and stays so.
pub proof fn law_settled_versions_stay_settled(finished: bool, action: RecoveryAction)
    ensures
        finished ==> closed_by(finished, action),
        closed_by(finished, RecoveryAction::Keep) && closed_by(finished, RecoveryAction::Restore),
        action != RecoveryAction::Keep && action != RecoveryAction::Restore ==> closed_by(
            finished,
            action,
        ) == finished,
{
}

/// A whole look begins with the policy as it stands, and only it counts as one.
pub proof fn law_look_begins_with_the_policy(s: StoreView, policy: Chars)
    requires
        s.metrics.full_scans < u64::MAX,
    ensures
        scan_begun(s, policy, true).ignore == patterns_of(lines_of(policy)),
        scan_begun(s, policy, false).ignore == patterns_of(lines_of(policy)),
        scan_begun(s, policy, true).metrics == s.metrics,
        scan_begun(s, policy, false).metrics.full_scans == s.metrics.full_scans + 1,
        scan_begun(s, policy, false).cache == s.cache && scan_begun(s, policy, true).cache == s.cache,
{
}

} // verus!
