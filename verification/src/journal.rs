//! The journal of a Share: what it holds, what the other side has confirmed
//! and which changes still wait for a confirmation.

use crate::collections::{
    lemma_ascending_distinct, lemma_take_contains, lists, Duplicate, StringMap,
};
use crate::ignore::{ignored, Ignore};
use crate::model::{valid_manifest, validate_manifest, Entry, EntryView, Manifest, ModelError};
use crate::text::{same, Chars};
use vstd::prelude::*;

verus! {

/// A change that waits for its confirmation.
#[derive(Clone, Debug)]
pub struct Change {
    pub sequence: u64,
    pub operation: String,
    pub entry: Option<Entry>,
}

/// A [`Change`] as a mathematical value.
pub struct ChangeView {
    pub sequence: u64,
    pub operation: Chars,
    pub entry: Option<EntryView>,
}

/// An optional entry as a mathematical value.
pub open spec fn entry_of(e: Option<Entry>) -> Option<EntryView> {
    match e {
        Some(x) => Some(x@),
        None => None,
    }
}

impl View for Change {
    type V = ChangeView;

    open spec fn view(&self) -> ChangeView {
        ChangeView {
            sequence: self.sequence,
            operation: self.operation@,
            entry: entry_of(self.entry),
        }
    }
}

impl Duplicate for Change {
    fn duplicate(&self) -> (r: Self) {
        Change {
            sequence: self.sequence,
            operation: self.operation.clone(),
            entry: match &self.entry {
                Some(e) => Some(e.duplicate()),
                None => None,
            },
        }
    }
}

/// The journal of a Share.
pub struct ShareState {
    pub share_id: String,
    pub manifest: Manifest,
    pub acknowledged: Manifest,
    pub pending: StringMap<Change>,
    pub sequence: u64,
}

/// A [`ShareState`] as a mathematical value.
#[verifier::ext_equal]
pub struct JournalView {
    pub share_id: Chars,
    pub manifest: Map<Chars, EntryView>,
    pub acknowledged: Map<Chars, EntryView>,
    pub pending: Map<Chars, ChangeView>,
    pub sequence: u64,
}

/// The journal of a Share of which nothing is known yet.
pub open spec fn empty_journal(share_id: Chars) -> JournalView {
    JournalView {
        share_id,
        manifest: Map::empty(),
        acknowledged: Map::empty(),
        pending: Map::empty(),
        sequence: 0,
    }
}

/// Why a stored journal is not the one of a Share.
pub open spec fn load_error(stored: JournalView, share_id: Chars, e: JournalError) -> bool {
    match e {
        JournalError::OtherShare => stored.share_id != share_id,
        JournalError::Manifest(e) => stored.share_id == share_id && crate::model::manifest_error(
            stored.manifest,
            e@,
        ),
    }
}

impl View for ShareState {
    type V = JournalView;

    open spec fn view(&self) -> JournalView {
        JournalView {
            share_id: self.share_id@,
            manifest: self.manifest@,
            acknowledged: self.acknowledged@,
            pending: self.pending@,
            sequence: self.sequence,
        }
    }
}

/// What a map holds under a key.
pub open spec fn look<V>(m: Map<Chars, V>, k: Chars) -> Option<V> {
    if m.dom().contains(k) {
        Some(m[k])
    } else {
        None
    }
}

/// The paths whose entries differ between two manifests.
pub open spec fn changed(
    was: Map<Chars, EntryView>,
    now: Map<Chars, EntryView>,
) -> Set<Chars> {
    was.dom().union(now.dom()).filter(|p: Chars| look(was, p) != look(now, p))
}

/// The name of the change from one entry to another.
pub open spec fn operation(was: Option<EntryView>, now: Option<EntryView>) -> Chars {
    if now is None {
        "remove"@
    } else if was is None {
        "create"@
    } else {
        "modify"@
    }
}

/// The pending changes once the paths `c` were seen to have changed, in that
/// order: one change for each path, none where the confirmed version is back.
pub open spec fn pending_after(
    s: JournalView,
    now: Map<Chars, EntryView>,
    c: Seq<Chars>,
) -> Map<Chars, ChangeView> {
    Map::new(
        |p: Chars|
            if c.contains(p) {
                look(now, p) != look(s.acknowledged, p)
            } else {
                s.pending.dom().contains(p)
            },
        |p: Chars|
            if c.contains(p) {
                ChangeView {
                    sequence: (s.sequence + c.index_of(p) + 1) as u64,
                    operation: operation(look(s.manifest, p), look(now, p)),
                    entry: look(now, p),
                }
            } else {
                s.pending[p]
            },
    )
}

/// The journal after a look at the files, where `c` lists the changed paths.
pub open spec fn observed(
    s: JournalView,
    now: Map<Chars, EntryView>,
    c: Seq<Chars>,
) -> JournalView {
    JournalView {
        manifest: now,
        pending: pending_after(s, now, c),
        sequence: (s.sequence + c.len()) as u64,
        ..s
    }
}

/// The journal after the other side confirmed a version of a path.
pub open spec fn confirmed(s: JournalView, path: Chars, entry: EntryView) -> JournalView {
    JournalView {
        acknowledged: s.acknowledged.insert(path, entry),
        pending: if s.pending.dom().contains(path) && s.pending[path].entry == Some(entry) {
            s.pending.remove(path)
        } else {
            s.pending
        },
        ..s
    }
}

/// The journal after a file of the other side was installed.
pub open spec fn installed(s: JournalView, path: Chars, entry: EntryView) -> JournalView {
    JournalView {
        manifest: s.manifest.insert(path, entry),
        acknowledged: s.acknowledged.insert(path, entry),
        pending: s.pending.remove(path),
        ..s
    }
}

/// The part of a map that a policy does not leave alone.
pub open spec fn visible<V>(m: Map<Chars, V>, policy: Seq<Chars>) -> Map<Chars, V> {
    Map::new(|k: Chars| m.dom().contains(k) && !ignored(policy, k, false), |k: Chars| m[k])
}

/// The journal without what a policy leaves alone.
pub open spec fn pruned(s: JournalView, policy: Seq<Chars>) -> JournalView {
    JournalView {
        manifest: visible(s.manifest, policy),
        pending: visible(s.pending, policy),
        ..s
    }
}

/// Every pending change speaks of the version that the Share holds now.
pub open spec fn consistent(s: JournalView) -> bool {
    forall|p: Chars| #[trigger]
        s.pending.dom().contains(p) ==> s.pending[p].entry == look(s.manifest, p)
            && s.pending[p].sequence <= s.sequence
}

/// Looking at the files keeps every pending change current.
pub proof fn law_observe_consistent(s: JournalView, now: Map<Chars, EntryView>, c: Seq<Chars>)
    requires
        consistent(s),
        lists(c, changed(s.manifest, now)),
        s.sequence + c.len() <= u64::MAX,
    ensures
        consistent(observed(s, now, c)),
{
    let t = observed(s, now, c);
    assert forall|p: Chars| #[trigger] t.pending.dom().contains(p) implies t.pending[p].entry
        == look(t.manifest, p) && t.pending[p].sequence <= t.sequence by {
        if c.contains(p) {
            let i = c.index_of(p);
            assert(0 <= i < c.len());
        } else {
            assert(s.pending.dom().contains(p));
            assert(!changed(s.manifest, now).contains(p));
        }
    }
}

/// Confirming a version and installing one keep every pending change current.
pub proof fn law_confirm_consistent(s: JournalView, path: Chars, entry: EntryView)
    requires
        consistent(s),
    ensures
        consistent(confirmed(s, path, entry)),
        consistent(installed(s, path, entry)),
{
    let t = installed(s, path, entry);
    assert forall|p: Chars| #[trigger] t.pending.dom().contains(p) implies t.pending[p].entry
        == look(t.manifest, p) && t.pending[p].sequence <= t.sequence by {
        assert(s.pending.dom().contains(p));
    }
}

/// A second look at unchanged files changes nothing.
pub proof fn law_observe_idempotent(
    s: JournalView,
    now: Map<Chars, EntryView>,
    c: Seq<Chars>,
    d: Seq<Chars>,
)
    requires
        lists(c, changed(s.manifest, now)),
        lists(d, changed(now, now)),
    ensures
        observed(observed(s, now, c), now, d) == observed(s, now, c),
{
    if d.len() > 0 {
        assert(d.contains(d[0]));
    }
    let t = observed(s, now, c);
    assert(pending_after(t, now, d) =~= t.pending);
    assert(observed(t, now, d) =~= t);
}

/// The confirmation of an old version leaves a newer pending change alone;
/// that of the current version ends it, and a repeated one changes nothing.
pub proof fn law_versioned_ack(s: JournalView, path: Chars, entry: EntryView)
    ensures
        s.pending.dom().contains(path) && s.pending[path].entry != Some(entry) ==> confirmed(
            s,
            path,
            entry,
        ).pending == s.pending,
        s.pending.dom().contains(path) && s.pending[path].entry == Some(entry)
            ==> !confirmed(s, path, entry).pending.dom().contains(path),
        confirmed(confirmed(s, path, entry), path, entry) == confirmed(s, path, entry),
{
    let t = confirmed(s, path, entry);
    assert(t.acknowledged.insert(path, entry) =~= t.acknowledged);
    assert(confirmed(t, path, entry) =~= t);
}

/// Going back to the confirmed version of a path cancels its pending change.
pub proof fn law_return_to_confirmed(
    s: JournalView,
    now: Map<Chars, EntryView>,
    c: Seq<Chars>,
    path: Chars,
)
    requires
        lists(c, changed(s.manifest, now)),
        look(s.manifest, path) != look(now, path),
        look(now, path) == look(s.acknowledged, path),
    ensures
        !observed(s, now, c).pending.dom().contains(path),
{
    assert(changed(s.manifest, now).contains(path));
    assert(c.contains(path));
}

/// Copies what a policy does not leave alone.
fn keep_visible<V: Duplicate>(m: &StringMap<V>, policy: &Ignore) -> (r: StringMap<V>)
    ensures
        r@ == visible(m@, policy@),
{
    let mut r: StringMap<V> = StringMap::new();
    let n: usize = m.len();
    let ghost order = m.order();
    let mut i: usize = 0;
    while i < n
        invariant
            order == m.order(),
            n == order.len(),
            lists(order, m@.dom()),
            i <= n,
            forall|k: Chars| #[trigger]
                r@.dom().contains(k) <==> order.take(i as int).contains(k) && !ignored(
                    policy@,
                    k,
                    false,
                ),
            forall|k: Chars| r@.dom().contains(k) ==> #[trigger] r@[k] == m@[k],
        decreases n - i,
    {
        let key = m.key_at(i);
        proof {
            lemma_take_contains(order, i as int);
        }
        if !policy.matches(key.as_str(), false) {
            let value = m.value_at(i).duplicate();
            r.insert(key.clone(), value);
        }
        i = i + 1;
    }
    proof {
        assert(order.take(n as int) =~= order);
        assert(r@ =~= visible(m@, policy@));
    }
    r
}

/// Whether two optional entries agree.
fn entries_agree(a: Option<&Entry>, b: Option<&Entry>) -> (r: bool)
    ensures
        r == (match (a, b) {
            (None, None) => true,
            (Some(x), Some(y)) => x@ == y@,
            _ => false,
        }),
{
    match (a, b) {
        (None, None) => true,
        (Some(x), Some(y)) => x.agrees(y),
        _ => false,
    }
}

/// Why a journal is refused.
#[derive(Clone, Debug)]
pub enum JournalError {
    /// The journal belongs to another Share.
    OtherShare,
    /// The files in the journal cannot be synchronised.
    Manifest(ModelError),
}

impl ShareState {
    /// The journal of a Share that has none yet.
    pub fn fresh(share_id: &str) -> (r: Self)
        ensures
            r@ == empty_journal(share_id@),
            consistent(r@),
    {
        ShareState {
            share_id: share_id.to_owned(),
            manifest: StringMap::new(),
            acknowledged: StringMap::new(),
            pending: StringMap::new(),
            sequence: 0,
        }
    }

    /// The journal of a Share: the stored one, or a new one where none is.
    pub fn load(stored: Option<ShareState>, share_id: &str) -> (r: Result<Self, JournalError>)
        ensures
            stored is None ==> r is Ok && r->Ok_0@ == empty_journal(share_id@),
            stored is Some ==> (r is Ok <==> stored->0@.share_id == share_id@ && valid_manifest(
                stored->0@.manifest,
            )),
            stored is Some && r is Ok ==> r->Ok_0@ == stored->0@,
            r is Err ==> load_error(stored->0@, share_id@, r->Err_0),
    {
        match stored {
            None => Ok(ShareState::fresh(share_id)),
            Some(state) => {
                if !same(state.share_id.as_str(), share_id) {
                    return Err(JournalError::OtherShare);
                }
                match validate_manifest(&state.manifest) {
                    Ok(()) => Ok(state),
                    Err(e) => Err(JournalError::Manifest(e)),
                }
            },
        }
    }

    /// Takes note of the files that a Share holds now: each changed path gets
    /// the next number, in ascending order of the paths.
    pub fn observe(&mut self, manifest: Manifest)
        requires
            forall|c: Seq<Chars>| #[trigger]
                lists(c, changed(old(self)@.manifest, manifest@)) ==> old(self).sequence + c.len()
                    <= u64::MAX,
        ensures
            exists|c: Seq<Chars>| #[trigger]
                lists(c, changed(old(self)@.manifest, manifest@)) && final(self)@ == observed(
                    old(self)@,
                    manifest@,
                    c,
                ),
    {
        let ghost s = self@;
        let ghost now = manifest@;
        let mut paths = self.manifest.keys();
        let others = manifest.keys();
        paths.absorb(&others);
        let n: usize = paths.len();
        let ghost all = paths.order();
        let mut changes: Vec<String> = Vec::new();
        let mut i: usize = 0;
        while i < n
            invariant
                s == self@,
                now == manifest@,
                all == paths.order(),
                n == all.len(),
                lists(all, s.manifest.dom().union(now.dom())),
                i <= n,
                crate::collections::ascending(crate::text::views(changes@)),
                forall|k: Chars| #[trigger]
                    crate::text::views(changes@).contains(k) <==> all.take(i as int).contains(k)
                        && look(s.manifest, k) != look(now, k),
            decreases n - i,
        {
            let path = paths.at(i);
            let before = self.manifest.get(path.as_str());
            let after = manifest.get(path.as_str());
            proof {
                lemma_take_contains(all, i as int);
            }
            if !entries_agree(before, after) {
                let name = path.clone();
                let ghost was = crate::text::views(changes@);
                proof {
                    crate::text::lemma_views_push(changes@, name);
                    assert forall|a: int, b: int|
                        #![trigger was.push(name@)[a], was.push(name@)[b]]
                        0 <= a < b < was.push(name@).len() implies crate::text::before(
                        was.push(name@)[a],
                        was.push(name@)[b],
                    ) by {
                        if b == was.len() {
                            assert(was.contains(was[a]));
                            let m = choose|m: int|
                                0 <= m < all.take(i as int).len() && all.take(i as int)[m] == was[a];
                            assert(crate::text::before(all[m], all[i as int]));
                        }
                    }
                    assert forall|k: Chars| #[trigger] was.push(name@).contains(k) <==> was.contains(k)
                        || k == name@ by {
                        if was.contains(k) {
                            let m = choose|m: int| 0 <= m < was.len() && was[m] == k;
                            assert(was.push(name@)[m] == k);
                        }
                        assert(was.push(name@)[was.len() as int] == name@);
                    }
                }
                changes.push(name);
            }
            i = i + 1;
        }
        let ghost c = crate::text::views(changes@);
        proof {
            assert(all.take(n as int) =~= all);
            assert forall|k: Chars| #[trigger] c.contains(k) <==> changed(s.manifest, now).contains(
                k,
            ) by {}
            assert(lists(c, changed(s.manifest, now)));
            lemma_ascending_distinct(c);
        }
        i = 0;
        while i < changes.len()
            invariant
                c == crate::text::views(changes@),
                c.no_duplicates(),
                i <= changes@.len(),
                s.sequence + c.len() <= u64::MAX,
                now == manifest@,
                self@.share_id == s.share_id,
                self@.manifest == s.manifest,
                self@.acknowledged == s.acknowledged,
                self@.sequence == s.sequence + i,
                self@.pending =~= pending_after(s, now, c.take(i as int)),
            decreases changes@.len() - i,
        {
            let path = changes[i].clone();
            assert(path@ == c[i as int]);
            let ghost was = self@.pending;
            self.sequence = self.sequence + 1;
            let before = self.manifest.get(path.as_str());
            let after = manifest.get(path.as_str());
            let done = self.acknowledged.get(path.as_str());
            let ghost at = c[i as int];
            proof {
                lemma_take_contains(c, i as int);
                assert(c.take(i + 1)[i as int] == at);
                assert forall|p: Chars| c.take(i as int).contains(p) implies c.take(
                    i + 1,
                ).index_of(p) == #[trigger] c.take(i as int).index_of(p) by {
                    let a = c.take(i as int).index_of(p);
                    let b = c.take(i + 1).index_of(p);
                    assert(c.take(i as int)[a] == p);
                    assert(c.take(i + 1)[a] == p);
                    assert(c.take(i + 1)[b] == p);
                    assert(c[a] == c[b]);
                }
                assert(c.take(i + 1).index_of(at) == i) by {
                    let b = c.take(i + 1).index_of(at);
                    assert(c.take(i + 1)[b] == at);
                    assert(c[b] == c[i as int]);
                }
                assert(!c.take(i as int).contains(at)) by {
                    if c.take(i as int).contains(at) {
                        let b = choose|b: int|
                            0 <= b < c.take(i as int).len() && c.take(i as int)[b] == at;
                        assert(c[b] == c[i as int]);
                    }
                }
            }
            if entries_agree(after, done) {
                self.pending.remove(path.as_str());
                assert(self@.pending =~= pending_after(s, now, c.take(i + 1)));
            } else {
                let word = if after.is_none() {
                    "remove"
                } else if before.is_none() {
                    "create"
                } else {
                    "modify"
                };
                let entry = match after {
                    Some(e) => Some(e.duplicate()),
                    None => None,
                };
                let change = Change { sequence: self.sequence, operation: word.to_owned(), entry };
                assert(change@ == (ChangeView {
                    sequence: (s.sequence + i + 1) as u64,
                    operation: operation(look(s.manifest, at), look(now, at)),
                    entry: look(now, at),
                }));
                self.pending.insert(path, change);
                assert(self@.pending =~= pending_after(s, now, c.take(i + 1)));
            }
            i = i + 1;
        }
        assert(c.take(i as int) =~= c);
        self.manifest = manifest;
        assert(self@ =~= observed(s, now, c));
    }

    /// Takes note that the other side holds a version of a path.
    pub fn ack(&mut self, path: &str, entry: &Entry)
        ensures
            final(self)@ == confirmed(old(self)@, path@, entry@),
    {
        let ghost s = self@;
        self.acknowledged.insert(path.to_owned(), entry.duplicate());
        let current = match self.pending.get(path) {
            Some(change) => {
                match &change.entry {
                    Some(e) => e.agrees(entry),
                    None => false,
                }
            },
            None => false,
        };
        if current {
            self.pending.remove(path);
        }
        assert(self@ =~= confirmed(s, path@, entry@));
    }

    /// Takes note that a file of the other side was installed; it supersedes
    /// whatever was pending.
    pub fn install(&mut self, path: &str, entry: &Entry)
        ensures
            final(self)@ == installed(old(self)@, path@, entry@),
    {
        let ghost s = self@;
        self.manifest.insert(path.to_owned(), entry.duplicate());
        self.ack(path, entry);
        self.pending.remove(path);
        assert(self@.pending =~= s.pending.remove(path@));
        assert(self@ =~= installed(s, path@, entry@));
    }

    /// Forgets what a policy leaves alone.
    pub fn prune(&mut self, policy: &Ignore)
        ensures
            final(self)@ == pruned(old(self)@, policy@),
    {
        let pending = keep_visible(&self.pending, policy);
        let manifest = keep_visible(&self.manifest, policy);
        self.pending = pending;
        self.manifest = manifest;
    }

    /// How many changes wait for a confirmation.
    pub fn pending_count(&self) -> (n: usize)
        ensures
            n == self@.pending.dom().len(),
    {
        self.pending.len()
    }
}

/// A store together with the journal of its Share.
pub struct TrackedStore<S> {
    pub inner: S,
    pub state: ShareState,
}

impl<S> TrackedStore<S> {
    /// Joins a store with the stored journal of a Share.
    pub fn new(inner: S, stored: Option<ShareState>, id: &str) -> (r: Result<Self, JournalError>)
        ensures
            r is Ok <==> (stored is None || (stored->0@.share_id == id@ && valid_manifest(
                stored->0@.manifest,
            ))),
            r is Ok ==> r->Ok_0.inner == inner && r->Ok_0.state@ == match stored {
                Some(state) => state@,
                None => empty_journal(id@),
            },
            r is Err ==> load_error(stored->0@, id@, r->Err_0),
    {
        match ShareState::load(stored, id) {
            Ok(state) => Ok(TrackedStore { inner, state }),
            Err(e) => Err(e),
        }
    }

    /// Takes note of a scan: what the policy leaves alone is forgotten, then
    /// the files are looked at.
    pub fn scan(&mut self, files: &Manifest, policy: &Ignore)
        requires
            forall|c: Seq<Chars>| #[trigger]
                lists(
                    c,
                    changed(pruned(old(self).state@, policy@).manifest, files@),
                ) ==> old(self).state.sequence + c.len() <= u64::MAX,
        ensures
            final(self).inner == old(self).inner,
            exists|c: Seq<Chars>| #[trigger]
                lists(c, changed(pruned(old(self).state@, policy@).manifest, files@))
                    && final(self).state@ == observed(
                    pruned(old(self).state@, policy@),
                    files@,
                    c,
                ),
    {
        self.state.prune(policy);
        self.state.observe(files.duplicate());
    }

    /// Takes note that a file of the other side was installed.
    pub fn install(&mut self, path: &str, entry: &Entry)
        ensures
            final(self).inner == old(self).inner,
            final(self).state@ == installed(old(self).state@, path@, entry@),
    {
        self.state.install(path, entry);
    }

    /// Takes note of a confirmation; the result says whether the journal
    /// changed and has to be saved.
    pub fn acknowledge(&mut self, path: &str, entry: &Entry) -> (r: bool)
        ensures
            final(self).inner == old(self).inner,
            r == !(look(old(self).state@.acknowledged, path@) == Some(entry@)
                && !old(self).state@.pending.dom().contains(path@)),
            final(self).state@ == (if r {
                confirmed(old(self).state@, path@, entry@)
            } else {
                old(self).state@
            }),
    {
        let known = match self.state.acknowledged.get(path) {
            Some(e) => e.agrees(entry),
            None => false,
        };
        if known && !self.state.pending.contains(path) {
            return false;
        }
        self.state.ack(path, entry);
        true
    }
}

/// A look at the files leaves no change unknown: every path whose file changed
/// is pending with its present version and what happened to it, unless that
/// version is the confirmed one; each gets a number of its own, behind all
/// numbers that were given before. What did not change is as it was.
pub proof fn law_every_change_is_pending(
    s: JournalView,
    now: Map<Chars, EntryView>,
    c: Seq<Chars>,
    p: Chars,
    q: Chars,
)
    requires
        lists(c, changed(s.manifest, now)),
        s.sequence + c.len() <= u64::MAX,
    ensures
        ({
            let t = observed(s, now, c);
            let moved = look(s.manifest, p) != look(now, p);
            let known = look(now, p) == look(s.acknowledged, p);
            &&& t.manifest == now
            &&& t.acknowledged == s.acknowledged
            &&& t.share_id == s.share_id
            &&& moved && !known ==> t.pending.dom().contains(p) && {
                let change = t.pending[p];
                &&& change.entry == look(now, p)
                &&& s.sequence < change.sequence <= t.sequence
                &&& !now.dom().contains(p) ==> change.operation == "remove"@
                &&& now.dom().contains(p) && !s.manifest.dom().contains(p) ==> change.operation
                    == "create"@
                &&& now.dom().contains(p) && s.manifest.dom().contains(p) ==> change.operation
                    == "modify"@
            }
            &&& moved && known ==> !t.pending.dom().contains(p)
            &&& !moved ==> look(t.pending, p) == look(s.pending, p)
            &&& p != q && moved && look(s.manifest, q) != look(now, q) && t.pending.dom().contains(p)
                && t.pending.dom().contains(q) ==> t.pending[p].sequence != t.pending[q].sequence
        }),
{
    let all = changed(s.manifest, now);
    let moved = look(s.manifest, p) != look(now, p);
    assert(all.contains(p) <==> moved);
    assert(all.contains(q) <==> look(s.manifest, q) != look(now, q));
    assert(c.contains(p) <==> moved);
    assert(c.contains(q) <==> look(s.manifest, q) != look(now, q));
    if moved {
        let i = c.index_of(p);
        assert(0 <= i < c.len() && c[i] == p);
    }
    if c.contains(q) {
        let j = c.index_of(q);
        assert(0 <= j < c.len() && c[j] == q);
    }
}

/// Confirming a version records it at its path and nowhere else, and no file
/// counts as changed by it. Installing a version makes it the known and the
/// confirmed one, with nothing pending, at its path and nowhere else.
pub proof fn law_versions_are_recorded(s: JournalView, path: Chars, entry: EntryView, other: Chars)
    requires
        other != path,
    ensures
        ({
            let c = confirmed(s, path, entry);
            let i = installed(s, path, entry);
            &&& look(c.acknowledged, path) == Some(entry)
            &&& c.manifest == s.manifest && c.sequence == s.sequence && c.share_id == s.share_id
            &&& look(c.acknowledged, other) == look(s.acknowledged, other)
            &&& look(c.pending, other) == look(s.pending, other)
            &&& look(i.manifest, path) == Some(entry)
            &&& look(i.acknowledged, path) == Some(entry)
            &&& look(i.pending, path) is None
            &&& i.sequence == s.sequence && i.share_id == s.share_id
            &&& look(i.manifest, other) == look(s.manifest, other)
            &&& look(i.acknowledged, other) == look(s.acknowledged, other)
            &&& look(i.pending, other) == look(s.pending, other)
        }),
{
}

/// A new policy takes the paths that it ignores out of the files and the
/// pending changes, and leaves everything else as it was, what was confirmed
/// included.
pub proof fn law_policy_hides_only_its_paths(s: JournalView, policy: Seq<Chars>, p: Chars)
    ensures
        ({
            let t = pruned(s, policy);
            &&& ignored(policy, p, false) ==> look(t.manifest, p) is None && look(t.pending, p) is None
            &&& !ignored(policy, p, false) ==> look(t.manifest, p) == look(s.manifest, p) && look(
                t.pending,
                p,
            ) == look(s.pending, p)
            &&& t.acknowledged == s.acknowledged && t.sequence == s.sequence && t.share_id
                == s.share_id
        }),
{
}

} // verus!
