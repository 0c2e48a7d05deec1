//! What the PC makes of changes below its Shares' folders: when a Share is
//! looked at again, how much of it, and whether the phone is called.

use crate::collections::{lists, Duplicate, StringMap, StringSet};
use crate::config::{lemma_seen_push, seen, ShareConfig, ShareView};
use crate::ignore::{ignored, Ignore};
use crate::model::lemma_no_separator;
use crate::paths::{law_way_below_a_folder, relative, relative_to, within};
use crate::sync::since;
use crate::text::{lemma_views_push, pieces, same, views, Chars};
use vstd::prelude::*;

verus! {

/// How long a folder is quiet before its changes count, in milliseconds.
pub const DEBOUNCE_MS: u64 = 350;

/// How often folders are looked at without a known change.
pub const FALLBACK_MS: u64 = 60_000;

/// How often folders are looked at from the bottom up.
pub const FULL_MS: u64 = 900_000;

/// How often the configuration is read again.
pub const CONFIG_MS: u64 = 1_000;

/// What is known of a change.
#[derive(Clone, Copy, Debug, PartialEq, Eq, Structural)]
pub enum Notice {
    /// A file was only read.
    Access,
    /// Something was moved or removed, or a folder came into being.
    Tree,
    /// A file changed.
    Plain,
}

/// The changes below a folder.
pub struct Dirt {
    pub since: u64,
    /// The paths that changed; the empty path stands for all of them.
    pub paths: StringSet,
}

impl View for Dirt {
    type V = (u64, Set<Chars>);

    open spec fn view(&self) -> (u64, Set<Chars>) {
        (self.since, self.paths@)
    }
}

/// The Shares that are watched, and what is known of changes in them.
pub struct Watch {
    watched: StringMap<ShareConfig>,
    dirty: StringMap<Dirt>,
    full: bool,
    untrusted: bool,
    last_fallback: u64,
    last_full: u64,
}

/// A [`Watch`] as a mathematical value.
#[verifier::ext_equal]
pub struct WatchView {
    pub watched: Map<Chars, ShareView>,
    pub dirty: Map<Chars, (u64, Set<Chars>)>,
    /// Everything is to be looked at.
    pub full: bool,
    /// Changes may go unnoticed.
    pub untrusted: bool,
    pub last_fallback: u64,
    pub last_full: u64,
}

impl View for Watch {
    type V = WatchView;

    closed spec fn view(&self) -> WatchView {
        WatchView {
            watched: self.watched@,
            dirty: self.dirty@,
            full: self.full,
            untrusted: self.untrusted,
            last_fallback: self.last_fallback,
            last_full: self.last_full,
        }
    }
}

/// The path that stands for all paths.
pub open spec fn everything() -> Set<Chars> {
    Set::empty().insert(Seq::empty())
}

/// A change that a policy does not hide.
pub open spec fn noticed(policy: Seq<Chars>, rel: Chars, directory: bool) -> bool {
    rel.len() == 0 || rel == ".rowdignore"@ || !ignored(policy, rel, directory)
}

/// The changes below a folder with one more.
pub open spec fn soiled(d: Option<(u64, Set<Chars>)>, rel: Chars, structural: bool, now: u64) -> (
    u64,
    Set<Chars>,
) {
    let paths = match d {
        Some(x) => x.1,
        None => Set::empty(),
    };
    (
        now,
        if structural {
            everything()
        } else if paths.contains(Seq::empty()) {
            paths
        } else {
            paths.insert(rel)
        },
    )
}

/// A value of a map, if it is there.
pub open spec fn at<V>(m: Map<Chars, V>, k: Chars) -> Option<V> {
    if m.dom().contains(k) {
        Some(m[k])
    } else {
        None
    }
}

/// What a change at a path changes for one Share.
pub open spec fn after_change(
    w: WatchView,
    id: Chars,
    policy: Seq<Chars>,
    path: Chars,
    directory: bool,
    notice: Notice,
    now: u64,
) -> WatchView {
    if notice != Notice::Access && w.watched.dom().contains(id) && within(path, w.watched[id].root)
        && noticed(policy, relative_to(path, w.watched[id].root), directory) {
        let rel = relative_to(path, w.watched[id].root);
        WatchView {
            dirty: w.dirty.insert(
                id,
                soiled(at(w.dirty, id), rel, notice == Notice::Tree, now),
            ),
            ..w
        }
    } else {
        w
    }
}

/// Whether it is time to look at a Share.
pub open spec fn due(w: WatchView, id: Chars, fallback: bool, now: u64) -> bool {
    w.full || fallback || (w.dirty.dom().contains(id) && since(now, w.dirty[id].0) >= DEBOUNCE_MS)
}

/// What is done about a Share.
pub enum Look {
    /// Its time has not come.
    Later,
    /// Its folder is not there; it is looked at whole once it is back.
    Unreachable,
    /// The store is told of the paths, or of everything; `urgent` says that a
    /// round may be cut short for it, `wake` that the phone is to be called.
    Hint { full: bool, paths: Option<StringSet>, urgent: bool, wake: bool },
}

/// What a look at a Share changes.
pub open spec fn after_look(w: WatchView, id: Chars, fallback: bool, reachable: bool, now: u64) -> WatchView {
    if !due(w, id, fallback, now) {
        w
    } else if !reachable {
        let moment = if w.dirty.dom().contains(id) {
            w.dirty[id].0
        } else {
            now
        };
        WatchView { dirty: w.dirty.insert(id, (moment, everything())), ..w }
    } else {
        WatchView { dirty: w.dirty.remove(id), ..w }
    }
}

/// The folders whose watching ends and begins.
pub struct Rewatch {
    pub unwatch: Vec<String>,
    pub watch: Vec<ShareConfig>,
}

/// A Share stands in a list with the same folder.
pub open spec fn still_there(shares: Seq<ShareView>, id: Chars, root: Chars) -> bool {
    exists|i: int|
        0 <= i < shares.len() && (#[trigger] shares[i]).share_id == id && shares[i].root == root
}

/// The folders whose watching ends, in the order of their Shares' identities.
pub open spec fn ending(
    order: Seq<Chars>,
    watched: Map<Chars, ShareView>,
    shares: Seq<ShareView>,
) -> Seq<Chars>
    decreases order.len(),
{
    if order.len() == 0 {
        Seq::empty()
    } else {
        let rest = ending(order.drop_last(), watched, shares);
        let root = watched[order.last()].root;
        if still_there(shares, order.last(), root) {
            rest
        } else {
            rest.push(root)
        }
    }
}

/// The Shares whose watching begins.
pub open spec fn beginning(watched: Map<Chars, ShareView>, shares: Seq<ShareView>) -> Seq<ShareView>
    decreases shares.len(),
{
    if shares.len() == 0 {
        Seq::empty()
    } else {
        let rest = beginning(watched, shares.drop_last());
        let s = shares.last();
        if s.enabled && !(watched.dom().contains(s.share_id) && watched[s.share_id].root == s.root) {
            rest.push(s)
        } else {
            rest
        }
    }
}

/// The Shares that are on, by identity.
pub open spec fn enabled_map(shares: Seq<ShareView>) -> Map<Chars, ShareView>
    decreases shares.len(),
{
    if shares.len() == 0 {
        Map::empty()
    } else {
        let rest = enabled_map(shares.drop_last());
        if shares.last().enabled {
            rest.insert(shares.last().share_id, shares.last())
        } else {
            rest
        }
    }
}

/// The changes of the watched Shares whose folders are there, in the order of
/// their identities.
pub open spec fn handouts(order: Seq<Chars>, w: WatchView, reachable: Set<Chars>) -> Seq<
    (ShareView, Set<Chars>),
>
    decreases order.len(),
{
    if order.len() == 0 {
        Seq::empty()
    } else {
        let rest = handouts(order.drop_last(), w, reachable);
        let id = order.last();
        if w.watched.dom().contains(id) && reachable.contains(id) {
            rest.push((w.watched[id], w.dirty[id].1))
        } else {
            rest
        }
    }
}

/// A list of changes as a mathematical value.
pub open spec fn handouts_seen(v: Seq<(ShareConfig, StringSet)>) -> Seq<(ShareView, Set<Chars>)> {
    v.map_values(|p: (ShareConfig, StringSet)| (p.0@, p.1@))
}

/// Whether enough time has passed.
pub fn elapsed(now: u64, last: u64, span: u64) -> (r: bool)
    ensures
        r == (since(now, last) >= span),
{
    (if now >= last {
        now - last
    } else {
        0
    }) >= span
}

/// Whether the phone is called: not where the round that was cut short told it
/// already.
pub fn calls(wake: bool, delivered: Option<bool>) -> (r: bool)
    ensures
        r == (wake && delivered != Some(true)),
{
    match delivered {
        Some(d) => wake && !d,
        None => wake,
    }
}

impl Watch {
    /// Nothing is watched yet.
    pub fn new(untrusted: bool, now: u64) -> (r: Self)
        ensures
            r@ == (WatchView {
                watched: Map::empty(),
                dirty: Map::empty(),
                full: false,
                untrusted,
                last_fallback: now,
                last_full: now,
            }),
    {
        Watch {
            watched: StringMap::new(),
            dirty: StringMap::new(),
            full: false,
            untrusted,
            last_fallback: now,
            last_full: now,
        }
    }

    /// Changes may have gone unnoticed: everything is to be looked at.
    pub fn rescan(&mut self)
        ensures
            final(self)@ == (WatchView { full: true, ..old(self)@ }),
    {
        self.full = true;
    }

    /// Changes may go unnoticed from now on.
    pub fn distrust(&mut self)
        ensures
            final(self)@ == (WatchView { untrusted: true, ..old(self)@ }),
    {
        self.untrusted = true;
    }

    /// Whether scans may rely on what was noticed.
    pub fn trusted(&self) -> (r: bool)
        ensures
            r == !self@.untrusted,
    {
        !self.untrusted
    }

    /// The Shares that are watched.
    pub fn watched(&self) -> (r: Vec<ShareConfig>)
        ensures
            forall|order: Seq<Chars>|
                #[trigger] lists(order, self@.watched.dom()) ==> seen(r@) == order.map_values(
                    |id: Chars| self@.watched[id],
                ),
    {
        let n: usize = self.watched.len();
        let ghost order = self.watched.order();
        let ghost all = order.map_values(|id: Chars| self.watched@[id]);
        let mut r: Vec<ShareConfig> = Vec::new();
        let mut i: usize = 0;
        assert(seen(r@) =~= all.take(0));
        while i < n
            invariant
                i <= n == order.len(),
                order == self.watched.order(),
                all == order.map_values(|id: Chars| self.watched@[id]),
                seen(r@) == all.take(i as int),
            decreases n - i,
        {
            let share = self.watched.value_at(i).duplicate();
            proof {
                lemma_seen_push(r@, share);
                assert(all.take(i + 1) =~= all.take(i as int).push(all[i as int]));
            }
            r.push(share);
            i = i + 1;
        }
        proof {
            assert(all.take(i as int) =~= all);
            assert forall|o: Seq<Chars>| #[trigger] lists(o, self@.watched.dom()) implies seen(r@)
                == o.map_values(|id: Chars| self@.watched[id]) by {
                crate::collections::lemma_listing_unique(o, order, self@.watched.dom());
            }
        }
        r
    }

    /// Takes over the Shares of the configuration.
    pub fn refresh(&mut self, shares: &Vec<ShareConfig>) -> (r: Rewatch)
        ensures
            forall|order: Seq<Chars>|
                #[trigger] lists(order, old(self)@.watched.dom()) ==> views(r.unwatch@) == ending(
                    order,
                    old(self)@.watched,
                    seen(shares@),
                ),
            seen(r.watch@) == beginning(old(self)@.watched, seen(shares@)),
            final(self)@ == (WatchView { watched: enabled_map(seen(shares@)), ..old(self)@ }),
    {
        let unwatch = self.ended(shares);
        let mut watch: Vec<ShareConfig> = Vec::new();
        let mut fresh: StringMap<ShareConfig> = StringMap::new();
        let ghost all = seen(shares@);
        let mut i: usize = 0;
        assert(seen(watch@) =~= Seq::<ShareView>::empty());
        assert(all.take(0) =~= Seq::<ShareView>::empty());
        while i < shares.len()
            invariant
                i <= shares@.len(),
                *self == *old(self),
                all == seen(shares@),
                seen(watch@) == beginning(self@.watched, all.take(i as int)),
                fresh@ == enabled_map(all.take(i as int)),
            decreases shares@.len() - i,
        {
            let share = &shares[i];
            proof {
                assert(all.take(i + 1).drop_last() =~= all.take(i as int));
                assert(all.take(i + 1).last() == share@);
            }
            if share.enabled {
                let known = match self.watched.get(share.share_id.as_str()) {
                    Some(old) => same(old.root.as_str(), share.root.as_str()),
                    None => false,
                };
                if !known {
                    let copy = share.duplicate();
                    proof {
                        lemma_seen_push(watch@, copy);
                    }
                    watch.push(copy);
                }
                fresh.insert(share.share_id.clone(), share.duplicate());
            }
            i = i + 1;
        }
        assert(all.take(i as int) =~= all);
        self.watched = fresh;
        Rewatch { unwatch, watch }
    }

    fn ended(&self, shares: &Vec<ShareConfig>) -> (r: Vec<String>)
        ensures
            forall|order: Seq<Chars>|
                #[trigger] lists(order, self@.watched.dom()) ==> views(r@) == ending(
                    order,
                    self@.watched,
                    seen(shares@),
                ),
    {
        let n: usize = self.watched.len();
        let ghost order = self.watched.order();
        let mut r: Vec<String> = Vec::new();
        let mut i: usize = 0;
        assert(views(r@) =~= Seq::<Chars>::empty());
        assert(order.take(0) =~= Seq::<Chars>::empty());
        while i < n
            invariant
                i <= n == order.len(),
                order == self.watched.order(),
                views(r@) == ending(order.take(i as int), self.watched@, seen(shares@)),
            decreases n - i,
        {
            let id = self.watched.key_at(i);
            let old = self.watched.value_at(i);
            proof {
                assert(order.take(i + 1).drop_last() =~= order.take(i as int));
                assert(order.take(i + 1).last() == id@);
            }
            if !keeps(shares, id.as_str(), old.root.as_str()) {
                proof {
                    lemma_views_push(r@, old.root);
                }
                r.push(old.root.clone());
            }
            i = i + 1;
        }
        proof {
            assert(order.take(i as int) =~= order);
            assert forall|o: Seq<Chars>| #[trigger] lists(o, self@.watched.dom()) implies views(r@)
                == ending(o, self@.watched, seen(shares@)) by {
                crate::collections::lemma_listing_unique(o, order, self@.watched.dom());
            }
        }
        r
    }

    /// Takes note of a change at a path, for one Share. Says whether the Share
    /// had no changes before.
    pub fn changed(
        &mut self,
        id: &str,
        policy: &Ignore,
        path: &str,
        directory: bool,
        notice: Notice,
        now: u64,
    ) -> (r: bool)
        ensures
            final(self)@ == after_change(
                old(self)@,
                id@,
                policy@,
                path@,
                directory,
                notice,
                now,
            ),
            r == (!old(self)@.dirty.dom().contains(id@) && final(self)@.dirty.dom().contains(id@)),
    {
        let rel = match notice {
            Notice::Access => None,
            _ => match self.watched.get(id) {
                None => None,
                Some(share) => relative(path, share.root.as_str()),
            },
        };
        let rel = match rel {
            None => {
                return false;
            },
            Some(rel) => rel,
        };
        let seen_change = rel.as_str().unicode_len() == 0 || same(rel.as_str(), ".rowdignore")
            || !policy.matches(rel.as_str(), directory);
        if !seen_change {
            return false;
        }
        let mut fresh = true;
        let mut paths = StringSet::new();
        if let Some(dirt) = self.dirty.get(id) {
            fresh = false;
            paths = dirt.paths.duplicate();
        }
        let ghost known = paths@;
        if notice == Notice::Tree {
            paths = whole();
        } else if !paths.contains("") {
            proof {
                reveal_strlit("");
                assert(""@ =~= Seq::<char>::empty());
            }
            paths.insert(rel);
        } else {
            proof {
                reveal_strlit("");
                assert(""@ =~= Seq::<char>::empty());
            }
        }
        proof {
            let d = at(old(self)@.dirty, id@);
            assert(known =~= match d {
                Some(x) => x.1,
                None => Set::<Chars>::empty(),
            });
            assert((now, paths@) == soiled(d, rel@, notice == Notice::Tree, now));
        }
        self.dirty.insert(id.to_string(), Dirt { since: now, paths });
        fresh
    }

    /// A look at all Shares begins. Says whether it is a routine one.
    pub fn begin(&mut self, now: u64) -> (fallback: bool)
        ensures
            fallback == (since(now, old(self)@.last_fallback) >= FALLBACK_MS),
            final(self)@ == (WatchView {
                full: old(self)@.full || (fallback && old(self)@.untrusted) || since(
                    now,
                    old(self)@.last_full,
                ) >= FULL_MS,
                ..old(self)@
            }),
    {
        let fallback = elapsed(now, self.last_fallback, FALLBACK_MS);
        if fallback && self.untrusted {
            self.full = true;
        }
        if elapsed(now, self.last_full, FULL_MS) {
            self.full = true;
        }
        fallback
    }

    /// A look at one Share; `reachable` says whether its folder is there, and
    /// `connected` whether the phone is.
    pub fn look(
        &mut self,
        id: &str,
        fallback: bool,
        reachable: bool,
        connected: bool,
        now: u64,
    ) -> (r: Look)
        ensures
            final(self)@ == after_look(old(self)@, id@, fallback, reachable, now),
            r is Later <==> !due(old(self)@, id@, fallback, now),
            r is Unreachable <==> due(old(self)@, id@, fallback, now) && !reachable,
            r matches Look::Hint { full, paths, urgent, wake } ==> {
                let changed = old(self)@.dirty.dom().contains(id@);
                &&& full == old(self)@.full
                &&& paths is Some <==> changed
                &&& paths is Some ==> paths->0@ == old(self)@.dirty[id@].1
                &&& urgent == (changed && connected)
                &&& wake == (old(self)@.full || changed)
            },
    {
        let mut changed = false;
        let mut moment = now;
        let mut quiet = false;
        if let Some(dirt) = self.dirty.get(id) {
            changed = true;
            moment = dirt.since;
            quiet = elapsed(now, dirt.since, DEBOUNCE_MS);
        }
        if !(self.full || fallback || quiet) {
            return Look::Later;
        }
        if !reachable {
            self.dirty.insert(id.to_string(), Dirt { since: moment, paths: whole() });
            return Look::Unreachable;
        }
        let paths = match self.dirty.get(id) {
            Some(dirt) => Some(dirt.paths.duplicate()),
            None => None,
        };
        let full = self.full;
        self.dirty.remove(id);
        assert(self@ =~= after_look(old(self)@, id@, fallback, reachable, now)) by {
            if !changed {
                assert(old(self)@.dirty.remove(id@) =~= old(self)@.dirty);
            }
        }
        Look::Hint { full, paths, urgent: changed && connected, wake: full || changed }
    }

    /// A look at all Shares ends.
    pub fn end(&mut self, fallback: bool, now: u64)
        ensures
            final(self)@ == (WatchView {
                full: false,
                last_fallback: if old(self)@.full || fallback {
                    now
                } else {
                    old(self)@.last_fallback
                },
                last_full: if old(self)@.full {
                    now
                } else {
                    old(self)@.last_full
                },
                ..old(self)@
            }),
    {
        if self.full || fallback {
            self.last_fallback = now;
            if self.full {
                self.last_full = now;
            }
            self.full = false;
        }
    }

    /// The phone connects: every known change of a watched Share is handed out,
    /// but for Shares whose folder is not there, which are to be looked at
    /// whole. `reachable` names the Shares whose folder is there.
    pub fn connect(&mut self, reachable: &StringSet, now: u64) -> (r: Vec<(ShareConfig, StringSet)>)
        ensures
            final(self)@.dirty == Map::new(
                |id: Chars| old(self)@.dirty.dom().contains(id) && old(self)@.watched.dom().contains(
                    id,
                ) && !reachable@.contains(id),
                |id: Chars| (now, everything()),
            ),
            final(self)@ == (WatchView { dirty: final(self)@.dirty, ..old(self)@ }),
            forall|order: Seq<Chars>|
                #[trigger] lists(order, old(self)@.dirty.dom()) ==> handouts_seen(r@) == handouts(
                    order,
                    old(self)@,
                    reachable@,
                ),
    {
        let n: usize = self.dirty.len();
        let ghost order = self.dirty.order();
        let mut left: StringMap<Dirt> = StringMap::new();
        let mut r: Vec<(ShareConfig, StringSet)> = Vec::new();
        let mut i: usize = 0;
        assert(handouts_seen(r@) =~= Seq::<(ShareView, Set<Chars>)>::empty());
        assert(order.take(0) =~= Seq::<Chars>::empty());
        while i < n
            invariant
                i <= n == order.len(),
                order == self.dirty.order(),
                lists(order, self.dirty@.dom()),
                *self == *old(self),
                forall|id: Chars| #[trigger] left@.dom().contains(id) <==> order.take(i as int).contains(
                    id,
                ) && self@.watched.dom().contains(id) && !reachable@.contains(id),
                forall|id: Chars| #[trigger]
                    left@.dom().contains(id) ==> left@[id] == (now, everything()),
                handouts_seen(r@) == handouts(order.take(i as int), self@, reachable@),
            decreases n - i,
        {
            let id = self.dirty.key_at(i);
            let ghost less = order.take(i as int);
            let ghost more = order.take(i + 1);
            let ghost was = r@;
            proof {
                assert(more =~= less.push(id@));
                assert(more.drop_last() =~= less);
                assert forall|x: Chars| #[trigger] more.contains(x) <==> less.contains(x) || x == id@ by {
                    if less.contains(x) {
                        let j = choose|j: int| 0 <= j < less.len() && less[j] == x;
                        assert(more[j] == x);
                    }
                    if more.contains(x) && x != id@ {
                        let j = choose|j: int| 0 <= j < more.len() && more[j] == x;
                        assert(less[j] == x);
                    }
                    assert(more[i as int] == id@);
                }
            }
            if let Some(share) = self.watched.get(id.as_str()) {
                if reachable.contains(id.as_str()) {
                    let paths = self.dirty.value_at(i).paths.duplicate();
                    let copy = share.duplicate();
                    r.push((copy, paths));
                    assert(handouts_seen(r@) =~= handouts_seen(was).push((copy@, paths@)));
                } else {
                    left.insert(id.clone(), Dirt { since: now, paths: whole() });
                }
            }
            i = i + 1;
        }
        proof {
            assert(order.take(i as int) =~= order);
            assert forall|o: Seq<Chars>| #[trigger] lists(o, self@.dirty.dom()) implies handouts_seen(
                r@,
            ) == handouts(o, self@, reachable@) by {
                crate::collections::lemma_listing_unique(o, order, self@.dirty.dom());
            }
            assert forall|id: Chars| #[trigger] order.contains(id) <==> self@.dirty.dom().contains(
                id,
            ) by {}
        }
        self.dirty = left;
        assert(self@.dirty =~= Map::new(
            |id: Chars| old(self)@.dirty.dom().contains(id) && old(self)@.watched.dom().contains(id)
                && !reachable@.contains(id),
            |id: Chars| (now, everything()),
        ));
        r
    }
}

fn whole() -> (r: StringSet)
    ensures
        r@ == everything(),
{
    let mut r = StringSet::new();
    r.insert(String::new());
    assert(r@ =~= everything());
    r
}

fn keeps(shares: &Vec<ShareConfig>, id: &str, root: &str) -> (r: bool)
    ensures
        r == still_there(seen(shares@), id@, root@),
{
    let mut i: usize = 0;
    while i < shares.len()
        invariant
            i <= shares@.len(),
            forall|k: int|
                0 <= k < i ==> !((#[trigger] seen(shares@)[k]).share_id == id@ && seen(shares@)[k].root
                    == root@),
        decreases shares@.len() - i,
    {
        assert(seen(shares@)[i as int] == shares@[i as int]@);
        if same(shares[i].share_id.as_str(), id) && same(shares[i].root.as_str(), root) {
            return true;
        }
        i = i + 1;
    }
    false
}

/// A change is still known: its path is, or the whole folder counts as changed.
pub open spec fn known_change(w: WatchView, id: Chars, rel: Chars) -> bool {
    w.dirty.dom().contains(id) && (w.dirty[id].1.contains(rel) || w.dirty[id].1.contains(
        Seq::empty(),
    ))
}

/// A change that was noticed is known, and other changes do not make it
/// forgotten.
pub proof fn law_changes_accumulate(
    w: WatchView,
    id: Chars,
    policy: Seq<Chars>,
    path: Chars,
    directory: bool,
    notice: Notice,
    now: u64,
)
    ensures
        ({
            let v = after_change(w, id, policy, path, directory, notice, now);
            &&& forall|other: Chars, rel: Chars| known_change(w, other, rel) ==> #[trigger] known_change(
                v,
                other,
                rel,
            )
            &&& (notice != Notice::Access && w.watched.dom().contains(id) && within(
                path,
                w.watched[id].root,
            ) && noticed(policy, relative_to(path, w.watched[id].root), directory))
                ==> known_change(v, id, relative_to(path, w.watched[id].root))
        }),
{
}

/// A look at a Share loses no change: what is not handed out stays known, and
/// what is forgotten was handed out.
pub proof fn law_looks_lose_nothing(
    w: WatchView,
    id: Chars,
    fallback: bool,
    reachable: bool,
    now: u64,
    other: Chars,
    rel: Chars,
)
    requires
        known_change(w, other, rel),
    ensures
        known_change(after_look(w, id, fallback, reachable, now), other, rel) || (other == id
            && reachable && due(w, id, fallback, now)),
{
}

/// No change goes unnoticed: whatever changes below the folder of a watched
/// Share, at any depth, is known afterwards unless the policy leaves it alone,
/// and the moment of the change is kept. A file that was only read is no
/// change.
pub proof fn law_change_below_is_known(
    w: WatchView,
    id: Chars,
    policy: Seq<Chars>,
    rest: Chars,
    directory: bool,
    notice: Notice,
    now: u64,
)
    requires
        w.watched.dom().contains(id),
        forall|i: int| 0 <= i < pieces(rest, '/').len() ==> (#[trigger] pieces(rest, '/')[i]).len() > 0,
    ensures
        ({
            let path = w.watched[id].root + "/"@ + rest;
            let v = after_change(w, id, policy, path, directory, notice, now);
            &&& notice != Notice::Access && !ignored(policy, rest, directory) ==> known_change(
                v,
                id,
                rest,
            ) && v.dirty[id].0 == now
            &&& notice == Notice::Tree && !ignored(policy, rest, directory)
                ==> v.dirty[id].1.contains(Seq::empty())
            &&& notice == Notice::Access || (ignored(policy, rest, directory) && rest
                != ".rowdignore"@) ==> v == w
            &&& forall|other: Chars| other != id ==> (#[trigger] v.dirty.dom().contains(other)
                <==> w.dirty.dom().contains(other)) && v.dirty[other] == w.dirty[other]
            &&& v == (WatchView { dirty: v.dirty, ..w })
        }),
{
    law_way_below_a_folder(w.watched[id].root, rest);
}

/// The policy's own file is watched like any other, though it is never
/// synchronised.
pub proof fn law_policy_change_is_known(
    w: WatchView,
    id: Chars,
    policy: Seq<Chars>,
    notice: Notice,
    now: u64,
)
    requires
        w.watched.dom().contains(id),
        notice != Notice::Access,
    ensures
        known_change(
            after_change(
                w,
                id,
                policy,
                w.watched[id].root + "/"@ + ".rowdignore"@,
                false,
                notice,
                now,
            ),
            id,
            ".rowdignore"@,
        ),
{
    reveal_strlit(".rowdignore");
    lemma_no_separator(".rowdignore"@, '/');
    law_way_below_a_folder(w.watched[id].root, ".rowdignore"@);
}

/// A change is handed out once its folder was quiet for long enough, with its
/// path and not before; then it is no longer known, and the phone is called.
pub proof fn law_quiet_change_is_due(
    w: WatchView,
    id: Chars,
    policy: Seq<Chars>,
    rest: Chars,
    notice: Notice,
    now: u64,
    later: u64,
)
    requires
        w.watched.dom().contains(id),
        forall|i: int| 0 <= i < pieces(rest, '/').len() ==> (#[trigger] pieces(rest, '/')[i]).len() > 0,
        !ignored(policy, rest, false),
        notice != Notice::Access,
        now <= later,
        !w.full,
    ensures
        ({
            let path = w.watched[id].root + "/"@ + rest;
            let v = after_change(w, id, policy, path, false, notice, now);
            &&& due(v, id, false, later) <==> later - now >= 350
            &&& later - now >= 350 ==> !after_look(v, id, false, true, later).dirty.dom().contains(
                id,
            )
            &&& later - now < 350 ==> after_look(v, id, false, true, later) == v
        }),
{
    law_way_below_a_folder(w.watched[id].root, rest);
}

/// The Shares that are watched after a look at the configuration are those
/// that are on, each as the configuration has it.
pub proof fn law_enabled_shares_are_watched(shares: Seq<ShareView>)
    requires
        forall|i: int, j: int| #![trigger shares[i], shares[j]]
            0 <= i < j < shares.len() ==> shares[i].share_id != shares[j].share_id,
    ensures
        forall|i: int| #![trigger shares[i]]
            0 <= i < shares.len() && shares[i].enabled ==> enabled_map(shares).dom().contains(
                shares[i].share_id,
            ) && enabled_map(shares)[shares[i].share_id] == shares[i],
        forall|id: Chars| #[trigger]
            enabled_map(shares).dom().contains(id) ==> exists|i: int|
                0 <= i < shares.len() && (#[trigger] shares[i]).enabled && shares[i].share_id == id,
    decreases shares.len(),
{
    if shares.len() > 0 {
        let less = shares.drop_last();
        assert forall|i: int, j: int| #![trigger less[i], less[j]]
            0 <= i < j < less.len() implies less[i].share_id != less[j].share_id by {
            assert(less[i] == shares[i] && less[j] == shares[j]);
        }
        law_enabled_shares_are_watched(less);
        let n = shares.len() - 1;
        assert forall|i: int| #![trigger shares[i]]
            0 <= i < shares.len() && shares[i].enabled implies enabled_map(shares).dom().contains(
            shares[i].share_id,
        ) && enabled_map(shares)[shares[i].share_id] == shares[i] by {
            if i < n {
                assert(less[i] == shares[i]);
                assert(shares[i].share_id != shares[n].share_id);
            }
        }
        assert forall|id: Chars| #[trigger] enabled_map(shares).dom().contains(id) implies exists|
            i: int,
        |
            0 <= i < shares.len() && (#[trigger] shares[i]).enabled && shares[i].share_id == id by {
            if enabled_map(less).dom().contains(id) {
                let i = choose|i: int|
                    0 <= i < less.len() && (#[trigger] less[i]).enabled && less[i].share_id == id;
                assert(shares[i] == less[i]);
            } else {
                assert(shares[n].share_id == id);
            }
        }
    }
}

/// Every Share that is on and was not watched in its folder begins to be
/// watched, and no other does.
pub proof fn law_new_folders_begin(watched: Map<Chars, ShareView>, shares: Seq<ShareView>)
    ensures
        forall|i: int| #![trigger shares[i]]
            0 <= i < shares.len() ==> (beginning(watched, shares).contains(shares[i]) <==> (
            shares[i].enabled && !(watched.dom().contains(shares[i].share_id)
                && watched[shares[i].share_id].root == shares[i].root))),
        forall|s: ShareView| #[trigger]
            beginning(watched, shares).contains(s) ==> shares.contains(s),
    decreases shares.len(),
{
    if shares.len() > 0 {
        let less = shares.drop_last();
        let n = shares.len() - 1;
        law_new_folders_begin(watched, less);
        let rest = beginning(watched, less);
        let all = beginning(watched, shares);
        let fresh = shares[n].enabled && !(watched.dom().contains(shares[n].share_id)
            && watched[shares[n].share_id].root == shares[n].root);
        assert forall|s: ShareView| #[trigger] all.contains(s) <==> rest.contains(s) || (fresh && s
            == shares[n]) by {
            if rest.contains(s) {
                let k = choose|k: int| 0 <= k < rest.len() && rest[k] == s;
                assert(all[k] == s);
            }
            if fresh {
                assert(all[rest.len() as int] == shares[n]);
            }
            if all.contains(s) {
                let k = choose|k: int| 0 <= k < all.len() && all[k] == s;
                if k < rest.len() {
                    assert(rest[k] == s);
                }
            }
        }
        assert forall|s: ShareView| #[trigger] all.contains(s) implies shares.contains(s) by {
            if rest.contains(s) {
                assert(less.contains(s));
                let k = choose|k: int| 0 <= k < less.len() && less[k] == s;
                assert(shares[k] == s);
            } else {
                assert(shares[n] == s);
            }
        }
        assert forall|i: int| #![trigger shares[i]] 0 <= i < shares.len() implies (all.contains(
            shares[i],
        ) <==> (shares[i].enabled && !(watched.dom().contains(shares[i].share_id)
            && watched[shares[i].share_id].root == shares[i].root))) by {
            if i < n {
                assert(less[i] == shares[i]);
            } else if rest.contains(shares[n]) {
                assert(less.contains(shares[n]));
                let k = choose|k: int| 0 <= k < less.len() && less[k] == shares[n];
                assert(rest.contains(less[k]));
            }
        }
    }
}

/// Every folder that was watched and is that of no Share any more ceases to be
/// watched, and no other does.
pub proof fn law_gone_folders_end(
    order: Seq<Chars>,
    watched: Map<Chars, ShareView>,
    shares: Seq<ShareView>,
)
    ensures
        forall|root: Chars| #[trigger]
            ending(order, watched, shares).contains(root) <==> exists|i: int|
                0 <= i < order.len() && watched[#[trigger] order[i]].root == root && forall|k: int|
                    0 <= k < shares.len() ==> !((#[trigger] shares[k]).share_id == order[i]
                        && shares[k].root == root),
    decreases order.len(),
{
    let all = ending(order, watched, shares);
    if order.len() > 0 {
        let less = order.drop_last();
        let n = order.len() - 1;
        law_gone_folders_end(less, watched, shares);
        let rest = ending(less, watched, shares);
        assert forall|root: Chars| #[trigger] all.contains(root) <==> exists|i: int|
            0 <= i < order.len() && watched[#[trigger] order[i]].root == root && forall|k: int|
                0 <= k < shares.len() ==> !((#[trigger] shares[k]).share_id == order[i]
                    && shares[k].root == root) by {
            if rest.contains(root) {
                let k = choose|k: int| 0 <= k < rest.len() && rest[k] == root;
                assert(all[k] == root);
                let i = choose|i: int|
                    0 <= i < less.len() && watched[#[trigger] less[i]].root == root && forall|k: int|
                        0 <= k < shares.len() ==> !((#[trigger] shares[k]).share_id == less[i]
                            && shares[k].root == root);
                assert(order[i] == less[i]);
            }
            if all.contains(root) && !rest.contains(root) {
                let k = choose|k: int| 0 <= k < all.len() && all[k] == root;
                if k < rest.len() {
                    assert(rest[k] == root);
                }
                assert(watched[order[n]].root == root);
            }
            if exists|i: int|
                0 <= i < order.len() && watched[#[trigger] order[i]].root == root && forall|k: int|
                    0 <= k < shares.len() ==> !((#[trigger] shares[k]).share_id == order[i]
                        && shares[k].root == root) {
                let i = choose|i: int|
                    0 <= i < order.len() && watched[#[trigger] order[i]].root == root && forall|
                        k: int,
                    |
                        0 <= k < shares.len() ==> !((#[trigger] shares[k]).share_id == order[i]
                            && shares[k].root == root);
                if i < n {
                    assert(less[i] == order[i]);
                    assert(rest.contains(root));
                } else {
                    assert(all[rest.len() as int] == root);
                }
            }
        }
    }
}

/// A phone that connects is told of all known changes of the Shares whose
/// folders are there, and of nothing else.
pub proof fn law_connecting_hands_out_the_changes(
    order: Seq<Chars>,
    w: WatchView,
    reachable: Set<Chars>,
)
    ensures
        forall|i: int| #![trigger order[i]]
            0 <= i < order.len() && w.watched.dom().contains(order[i]) && reachable.contains(
                order[i],
            ) ==> handouts(order, w, reachable).contains((w.watched[order[i]], w.dirty[order[i]].1)),
        forall|h: (ShareView, Set<Chars>)| #[trigger]
            handouts(order, w, reachable).contains(h) ==> exists|i: int|
                0 <= i < order.len() && w.watched.dom().contains(#[trigger] order[i])
                    && reachable.contains(order[i]) && h == (w.watched[order[i]], w.dirty[order[i]].1),
    decreases order.len(),
{
    let all = handouts(order, w, reachable);
    if order.len() > 0 {
        let less = order.drop_last();
        let n = order.len() - 1;
        law_connecting_hands_out_the_changes(less, w, reachable);
        let rest = handouts(less, w, reachable);
        assert forall|i: int| #![trigger order[i]]
            0 <= i < order.len() && w.watched.dom().contains(order[i]) && reachable.contains(
                order[i],
            ) implies all.contains((w.watched[order[i]], w.dirty[order[i]].1)) by {
            let h = (w.watched[order[i]], w.dirty[order[i]].1);
            if i < n {
                assert(less[i] == order[i]);
                assert(rest.contains(h));
                let k = choose|k: int| 0 <= k < rest.len() && rest[k] == h;
                assert(all[k] == h);
            } else {
                assert(all[rest.len() as int] == h);
            }
        }
        assert forall|h: (ShareView, Set<Chars>)| #[trigger] all.contains(h) implies exists|i: int|
            0 <= i < order.len() && w.watched.dom().contains(#[trigger] order[i])
                && reachable.contains(order[i]) && h == (w.watched[order[i]], w.dirty[order[i]].1) by {
            let k = choose|k: int| 0 <= k < all.len() && all[k] == h;
            if k < rest.len() {
                assert(rest[k] == h);
                assert(rest.contains(h));
                let i = choose|i: int|
                    0 <= i < less.len() && w.watched.dom().contains(#[trigger] less[i])
                        && reachable.contains(less[i]) && h == (
                    w.watched[less[i]],
                    w.dirty[less[i]].1,
                );
                assert(order[i] == less[i]);
            } else {
                assert(w.watched.dom().contains(order[n]));
            }
        }
    }
}

/// A Share is looked at whenever everything is to be looked at, or its turn has
/// come, or its folder was quiet for long enough after a change; and at no
/// other time. A look at a folder that is there takes its changes over; a
/// folder that is missing is looked at whole once it is back.
pub proof fn law_looks_come_when_due(w: WatchView, id: Chars, fallback: bool, now: u64)
    ensures
        w.full || fallback ==> due(w, id, fallback, now),
        !w.full && !fallback && !w.dirty.dom().contains(id) ==> !due(w, id, fallback, now),
        !w.full && !fallback && w.dirty.dom().contains(id) && w.dirty[id].0 <= now ==> (due(
            w,
            id,
            fallback,
            now,
        ) <==> now - w.dirty[id].0 >= 350),
        due(w, id, fallback, now) ==> {
            let there = after_look(w, id, fallback, true, now);
            let gone = after_look(w, id, fallback, false, now);
            &&& !there.dirty.dom().contains(id)
            &&& gone.dirty.dom().contains(id) && gone.dirty[id].1.contains(Seq::empty())
            &&& w.dirty.dom().contains(id) ==> gone.dirty[id].0 == w.dirty[id].0
            &&& there.watched == w.watched && gone.watched == w.watched
        },
        !due(w, id, fallback, now) ==> after_look(w, id, fallback, true, now) == w && after_look(
            w,
            id,
            fallback,
            false,
            now,
        ) == w,
{
}

} // verus!
