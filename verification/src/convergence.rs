//! What a whole round achieves: both sides of a Share end up with the same
//! files, and the agreed state says so.

use crate::config::{RemapPolicy, SyncMode};
use crate::ignore::ignored;
use crate::journal::look;
use crate::model::{conflict_name, Action, EntryView};
use crate::storage::hash_of;
use crate::sync::{
    acked, acted, agreed, decided, empty_window, fetched, flushed, forbidden, gets_drained,
    gets_installed, last_steps, new_base, next_step, parted, path_step, puts_drained, receipts,
    sent, settled_by, turned, JobView, OpView, RoundView, Staged, StateView, WindowView,
    MAX_IN_FLIGHT_FILES, MAX_STAGED_BYTES,
};
use crate::text::{begins, Chars};
use vstd::prelude::*;

verus! {

/// The files of both sides and what they agreed on.
#[verifier::ext_equal]
pub struct World {
    pub pc: Map<Chars, EntryView>,
    pub android: Map<Chars, EntryView>,
    pub state: StateView,
}

/// What a step that was done changes.
pub open spec fn apply(w: World, op: OpView) -> World {
    match op {
        OpView::Put { path, expected, entry, staged } => World {
            android: w.android.insert(path, entry),
            ..w
        },
        OpView::Install { path, expected, entry } => World { pc: w.pc.insert(path, entry), ..w },
        _ => World { state: settled_by(w.state, op), ..w },
    }
}

/// What steps that were done change, in order.
pub open spec fn apply_all(w: World, ops: Seq<OpView>) -> World
    decreases ops.len(),
{
    if ops.len() == 0 {
        w
    } else {
        apply(apply_all(w, ops.drop_last()), ops.last())
    }
}

/// A round from its next path to its end.
pub open spec fn run(r: RoundView, w: World, policy: Seq<Chars>) -> World
    decreases r.paths.len() - r.index,
{
    if r.index < 0 || r.index >= r.paths.len() {
        apply_all(w, last_steps(r).1)
    } else {
        let (next, ops) = next_step(r, w.state, policy);
        run(next, apply_all(w, ops), policy)
    }
}

/// The steps of a round from its next path to its end.
pub open spec fn steps(r: RoundView, w: World, policy: Seq<Chars>) -> Seq<OpView>
    decreases r.paths.len() - r.index,
{
    if r.index < 0 || r.index >= r.paths.len() {
        last_steps(r).1
    } else {
        let (next, ops) = next_step(r, w.state, policy);
        ops + steps(next, apply_all(w, ops), policy)
    }
}

/// A round is what its steps do.
pub proof fn law_round_is_its_steps(r: RoundView, w: World, policy: Seq<Chars>)
    ensures
        run(r, w, policy) == apply_all(w, steps(r, w, policy)),
    decreases r.paths.len() - r.index,
{
    if 0 <= r.index < r.paths.len() {
        let (next, ops) = next_step(r, w.state, policy);
        law_round_is_its_steps(next, apply_all(w, ops), policy);
        lemma_concat(w, ops, steps(next, apply_all(w, ops), policy));
    }
}

/// Both sides hold the same content at a path, or neither holds a file, and
/// the agreed state says so.
pub open spec fn settled_at(w: World, p: Chars) -> bool {
    hash_of(look(w.pc, p)) == hash_of(look(w.android, p)) && look(w.state.files, p) == hash_of(
        look(w.pc, p),
    )
}

/// Two worlds agree at a path.
pub open spec fn same_at(a: World, b: World, p: Chars) -> bool {
    look(a.pc, p) == look(b.pc, p) && look(a.android, p) == look(b.android, p) && look(
        a.state.files,
        p,
    ) == look(b.state.files, p)
}

/// One of the files on their way has this path.
pub open spec fn named(jobs: Seq<JobView>, p: Chars) -> bool {
    exists|k: int| 0 <= k < jobs.len() && (#[trigger] jobs[k]).path == p
}

/// No two files on their way share a path.
pub open spec fn apart(jobs: Seq<JobView>) -> bool {
    forall|a: int, b: int|
        #![trigger jobs[a], jobs[b]]
        0 <= a < b < jobs.len() ==> jobs[a].path != jobs[b].path
}

pub(crate) proof fn lemma_push(w: World, ops: Seq<OpView>, op: OpView)
    ensures
        apply_all(w, ops.push(op)) == apply(apply_all(w, ops), op),
{
    assert(ops.push(op).drop_last() =~= ops);
}

pub(crate) proof fn lemma_concat(w: World, a: Seq<OpView>, b: Seq<OpView>)
    ensures
        apply_all(w, a + b) == apply_all(apply_all(w, a), b),
    decreases b.len(),
{
    if b.len() == 0 {
        assert(a + b =~= a);
    } else {
        lemma_concat(w, a, b.drop_last());
        assert((a + b).drop_last() =~= a + b.drop_last());
        assert((a + b).last() == b.last());
    }
}

/// Steps that touch neither files nor the agreed digests.
pub open spec fn idle(op: OpView) -> bool {
    !(op is Put) && !(op is Install) && !(op is Base)
}

pub(crate) proof fn lemma_idle(w: World, ops: Seq<OpView>)
    requires
        forall|i: int| 0 <= i < ops.len() ==> idle(#[trigger] ops[i]),
    ensures
        apply_all(w, ops).pc == w.pc,
        apply_all(w, ops).android == w.android,
        apply_all(w, ops).state.files == w.state.files,
    decreases ops.len(),
{
    if ops.len() > 0 {
        assert forall|i: int| 0 <= i < ops.drop_last().len() implies idle(
            #[trigger] ops.drop_last()[i],
        ) by {
            assert(ops.drop_last()[i] == ops[i]);
        }
        lemma_idle(w, ops.drop_last());
        assert(idle(ops[ops.len() - 1]));
    }
}

pub(crate) proof fn lemma_acked_idle(w: WindowView, path: Chars, entry: EntryView)
    ensures
        forall|i: int|
            0 <= i < acked(w, path, entry).1.len() ==> idle(#[trigger] acked(w, path, entry).1[i]),
        acked(w, path, entry).0.puts == w.puts,
        acked(w, path, entry).0.gets == w.gets,
{
}

/// Confirming files makes their digests agreed on, and nothing else changes.
pub(crate) proof fn lemma_puts(v: WindowView, jobs: Seq<JobView>, w: World)
    requires
        apart(jobs),
    ensures
        ({
            let t = apply_all(w, puts_drained(v, jobs).1);
            &&& t.pc == w.pc
            &&& t.android == w.android
            &&& forall|p: Chars| !named(jobs, p) ==> #[trigger] look(t.state.files, p) == look(
                w.state.files,
                p,
            )
            &&& forall|k: int|
                0 <= k < jobs.len() ==> look(t.state.files, (#[trigger] jobs[k]).path) == Some(
                    jobs[k].entry.hash,
                )
        }),
        puts_drained(v, jobs).0.puts == Seq::<JobView>::empty(),
        puts_drained(v, jobs).0.gets == v.gets,
    decreases jobs.len(),
{
    if jobs.len() > 0 {
        let some = jobs.drop_last();
        assert(apart(some)) by {
            assert forall|a: int, b: int|
                #![trigger some[a], some[b]]
                0 <= a < b < some.len() implies some[a].path != some[b].path by {
                assert(some[a] == jobs[a] && some[b] == jobs[b]);
            }
        }
        lemma_puts(v, some, w);
        let j = jobs.last();
        let before = puts_drained(v, some).1;
        let s0 = apply_all(w, before);
        let o1 = before.push(OpView::Accept { path: j.path });
        let o2 = o1.push(OpView::Base { path: j.path, hash: Some(j.entry.hash) });
        let o3 = o2.push(OpView::Acknowledge { path: j.path, entry: j.entry });
        let o4 = o3.push(OpView::Persist);
        lemma_push(w, before, OpView::Accept { path: j.path });
        lemma_push(w, o1, OpView::Base { path: j.path, hash: Some(j.entry.hash) });
        lemma_push(w, o2, OpView::Acknowledge { path: j.path, entry: j.entry });
        lemma_push(w, o3, OpView::Persist);
        assert(puts_drained(v, jobs).1 =~= o4);
        let t = apply_all(w, o4);
        assert(t.state.files == s0.state.files.insert(j.path, j.entry.hash));
        assert forall|p: Chars| !named(jobs, p) implies #[trigger] look(t.state.files, p) == look(
            w.state.files,
            p,
        ) by {
            assert(jobs[jobs.len() - 1] == j);
            if named(some, p) {
                let k = choose|k: int| 0 <= k < some.len() && (#[trigger] some[k]).path == p;
                assert(jobs[k].path == p);
            }
            assert(look(s0.state.files, p) == look(w.state.files, p));
        }
        assert forall|k: int| 0 <= k < jobs.len() implies look(
            t.state.files,
            (#[trigger] jobs[k]).path,
        ) == Some(jobs[k].entry.hash) by {
            if k < some.len() {
                assert(some[k] == jobs[k]);
                assert(look(s0.state.files, some[k].path) == Some(some[k].entry.hash));
                assert(jobs[k].path != jobs[jobs.len() - 1].path);
            }
        }
    }
}

/// Installing files brings them to the PC and makes their digests agreed on,
/// and nothing else changes.
proof fn lemma_installs(v: WindowView, jobs: Seq<JobView>, w: World)
    requires
        apart(jobs),
    ensures
        ({
            let t = apply_all(w, gets_installed(v, jobs).1);
            &&& t.android == w.android
            &&& forall|p: Chars| !named(jobs, p) ==> #[trigger] look(t.state.files, p) == look(
                w.state.files,
                p,
            )
            &&& forall|p: Chars| !named(jobs, p) ==> #[trigger] look(t.pc, p) == look(w.pc, p)
            &&& forall|k: int|
                0 <= k < jobs.len() ==> look(t.state.files, (#[trigger] jobs[k]).path) == Some(
                    jobs[k].entry.hash,
                ) && look(t.pc, jobs[k].path) == Some(jobs[k].entry)
        }),
        gets_installed(v, jobs).0.gets == Seq::<JobView>::empty(),
        gets_installed(v, jobs).0.puts == v.puts,
    decreases jobs.len(),
{
    if jobs.len() > 0 {
        let some = jobs.drop_last();
        assert(apart(some)) by {
            assert forall|a: int, b: int|
                #![trigger some[a], some[b]]
                0 <= a < b < some.len() implies some[a].path != some[b].path by {
                assert(some[a] == jobs[a] && some[b] == jobs[b]);
            }
        }
        lemma_installs(v, some, w);
        let j = jobs.last();
        let (u, before) = gets_installed(v, some);
        let s0 = apply_all(w, before);
        let put_in = OpView::Install { path: j.path, expected: j.expected, entry: j.entry };
        let batch = acked(u, j.path, j.entry).1;
        lemma_acked_idle(u, j.path, j.entry);
        let o1 = before.push(put_in);
        lemma_push(w, before, put_in);
        let o2 = o1 + batch;
        lemma_concat(w, o1, batch);
        lemma_idle(apply_all(w, o1), batch);
        let o3 = o2.push(OpView::Base { path: j.path, hash: Some(j.entry.hash) });
        lemma_push(w, o2, OpView::Base { path: j.path, hash: Some(j.entry.hash) });
        let o4 = o3.push(OpView::Persist);
        lemma_push(w, o3, OpView::Persist);
        assert(gets_installed(v, jobs).1 =~= o4);
        let t = apply_all(w, o4);
        assert(t.state.files == s0.state.files.insert(j.path, j.entry.hash));
        assert(t.pc == s0.pc.insert(j.path, j.entry));
        assert forall|p: Chars| !named(jobs, p) implies #[trigger] look(t.state.files, p) == look(
            w.state.files,
            p,
        ) by {
            assert(jobs[jobs.len() - 1] == j);
            if named(some, p) {
                let k = choose|k: int| 0 <= k < some.len() && (#[trigger] some[k]).path == p;
                assert(jobs[k].path == p);
            }
            assert(look(s0.state.files, p) == look(w.state.files, p));
        }
        assert forall|p: Chars| !named(jobs, p) implies #[trigger] look(t.pc, p) == look(w.pc, p) by {
            assert(jobs[jobs.len() - 1] == j);
            if named(some, p) {
                let k = choose|k: int| 0 <= k < some.len() && (#[trigger] some[k]).path == p;
                assert(jobs[k].path == p);
            }
            assert(look(s0.pc, p) == look(w.pc, p));
        }
        assert forall|k: int| 0 <= k < jobs.len() implies look(
            t.state.files,
            (#[trigger] jobs[k]).path,
        ) == Some(jobs[k].entry.hash) && look(t.pc, jobs[k].path) == Some(jobs[k].entry) by {
            if k < some.len() {
                assert(some[k] == jobs[k]);
                assert(look(s0.state.files, some[k].path) == Some(some[k].entry.hash));
                assert(jobs[k].path != jobs[jobs.len() - 1].path);
            }
        }
    }
}

pub(crate) proof fn lemma_gets(v: WindowView, w: World)
    requires
        apart(v.gets),
    ensures
        ({
            let t = apply_all(w, gets_drained(v).1);
            &&& t.android == w.android
            &&& forall|p: Chars| !named(v.gets, p) ==> #[trigger] look(t.state.files, p) == look(
                w.state.files,
                p,
            )
            &&& forall|p: Chars| !named(v.gets, p) ==> #[trigger] look(t.pc, p) == look(w.pc, p)
            &&& forall|k: int|
                0 <= k < v.gets.len() ==> look(t.state.files, (#[trigger] v.gets[k]).path) == Some(
                    v.gets[k].entry.hash,
                ) && look(t.pc, v.gets[k].path) == Some(v.gets[k].entry)
        }),
        gets_drained(v).0.gets == Seq::<JobView>::empty(),
        gets_drained(v).0.puts == v.puts,
{
    let r = receipts(v.gets);
    assert forall|i: int| 0 <= i < r.len() implies idle(#[trigger] r[i]) by {}
    lemma_idle(w, r);
    lemma_concat(w, r, gets_installed(v, v.gets).1);
    lemma_installs(v, v.gets, apply_all(w, r));
}

/// A path that the round has yet to come to holds a conflicting version of
/// another path on both sides, and held nothing else before.
spec fn filled_at(w: World, start: World, p: Chars) -> bool {
    settled_at(w, p) && look(w.state.files, p) is Some && fits_at(
        start,
        p,
        look(w.state.files, p)->0,
    )
}

/// What holds between two paths of a round: the paths before `done` are
/// settled or on their way, and the others are as they were or hold a
/// conflicting version.
spec fn under_way(
    win: WindowView,
    w: World,
    start: World,
    paths: Seq<Chars>,
    done: int,
    due: Set<Chars>,
) -> bool {
    &&& 0 <= done <= paths.len()
    &&& apart(win.puts)
    &&& apart(win.gets)
    &&& forall|k: int|
        0 <= k < win.puts.len() ==> {
            let j = #[trigger] win.puts[k];
            &&& paths.take(done).contains(j.path)
            &&& hash_of(look(w.pc, j.path)) == Some(j.entry.hash)
            &&& hash_of(look(w.android, j.path)) == Some(j.entry.hash)
            &&& !named(win.gets, j.path)
        }
    &&& forall|k: int|
        0 <= k < win.gets.len() ==> {
            let j = #[trigger] win.gets[k];
            &&& paths.take(done).contains(j.path)
            &&& hash_of(look(w.android, j.path)) == Some(j.entry.hash)
        }
    &&& forall|i: int|
        0 <= i < done && due.contains(#[trigger] paths[i]) ==> settled_at(w, paths[i]) || named(
            win.puts,
            paths[i],
        ) || named(win.gets, paths[i])
    &&& forall|i: int|
        done <= i < paths.len() ==> same_at(w, start, #[trigger] paths[i]) || filled_at(
            w,
            start,
            paths[i],
        )
}

/// The window may be emptied in the direction of the phone at any time.
proof fn lemma_drain_puts_keeps(
    win: WindowView,
    w: World,
    start: World,
    paths: Seq<Chars>,
    done: int,
    due: Set<Chars>,
)
    requires
        under_way(win, w, start, paths, done, due),
        paths.no_duplicates(),
    ensures
        under_way(
            puts_drained(win, win.puts).0,
            apply_all(w, puts_drained(win, win.puts).1),
            start,
            paths,
            done,
            due,
        ),
        puts_drained(win, win.puts).0.puts == Seq::<JobView>::empty(),
        puts_drained(win, win.puts).0.gets == win.gets,
{
    lemma_puts(win, win.puts, w);
    let v = puts_drained(win, win.puts).0;
    let t = apply_all(w, puts_drained(win, win.puts).1);
    assert forall|i: int| 0 <= i < done && due.contains(#[trigger] paths[i]) implies settled_at(
        t,
        paths[i],
    ) || named(v.puts, paths[i]) || named(v.gets, paths[i]) by {
        let p = paths[i];
        if named(win.puts, p) {
            let k = choose|k: int| 0 <= k < win.puts.len() && (#[trigger] win.puts[k]).path == p;
            assert(look(t.state.files, win.puts[k].path) == Some(win.puts[k].entry.hash));
        } else {
            assert(look(t.state.files, p) == look(w.state.files, p));
        }
    }
    assert forall|i: int| done <= i < paths.len() implies same_at(t, start, #[trigger] paths[i])
        || filled_at(t, start, paths[i]) by {
        lemma_not_on_the_way(win.puts, w, paths, done, i);
        assert(look(t.state.files, paths[i]) == look(w.state.files, paths[i]));
    }
}

proof fn lemma_not_on_the_way(jobs: Seq<JobView>, w: World, paths: Seq<Chars>, done: int, i: int)
    requires
        0 <= done <= i < paths.len(),
        paths.no_duplicates(),
        forall|k: int| 0 <= k < jobs.len() ==> paths.take(done).contains((#[trigger] jobs[k]).path),
    ensures
        !named(jobs, paths[i]),
{
    if named(jobs, paths[i]) {
        let k = choose|k: int| 0 <= k < jobs.len() && (#[trigger] jobs[k]).path == paths[i];
        let m = choose|m: int| 0 <= m < paths.take(done).len() && paths.take(done)[m] == jobs[k].path;
        assert(paths[m] == paths[i]);
    }
}

/// The window may be emptied in the direction of the PC at any time.
proof fn lemma_drain_gets_keeps(
    win: WindowView,
    w: World,
    start: World,
    paths: Seq<Chars>,
    done: int,
    due: Set<Chars>,
)
    requires
        under_way(win, w, start, paths, done, due),
        paths.no_duplicates(),
    ensures
        under_way(
            gets_drained(win).0,
            apply_all(w, gets_drained(win).1),
            start,
            paths,
            done,
            due,
        ),
        gets_drained(win).0.gets == Seq::<JobView>::empty(),
        gets_drained(win).0.puts == win.puts,
{
    lemma_gets(win, w);
    let v = gets_drained(win).0;
    let t = apply_all(w, gets_drained(win).1);
    assert forall|i: int| 0 <= i < done && due.contains(#[trigger] paths[i]) implies settled_at(
        t,
        paths[i],
    ) || named(v.puts, paths[i]) || named(v.gets, paths[i]) by {
        let p = paths[i];
        if named(win.gets, p) {
            let k = choose|k: int| 0 <= k < win.gets.len() && (#[trigger] win.gets[k]).path == p;
            assert(look(t.state.files, win.gets[k].path) == Some(win.gets[k].entry.hash));
        } else {
            assert(look(t.state.files, p) == look(w.state.files, p));
            assert(look(t.pc, p) == look(w.pc, p));
        }
    }
    assert forall|k: int| 0 <= k < v.puts.len() implies {
        let j = #[trigger] v.puts[k];
        &&& paths.take(done).contains(j.path)
        &&& hash_of(look(t.pc, j.path)) == Some(j.entry.hash)
        &&& hash_of(look(t.android, j.path)) == Some(j.entry.hash)
        &&& !named(v.gets, j.path)
    } by {
        let j = win.puts[k];
        assert(v.puts[k] == j);
        assert(look(t.pc, j.path) == look(w.pc, j.path));
    }
    assert forall|i: int| done <= i < paths.len() implies same_at(t, start, #[trigger] paths[i])
        || filled_at(t, start, paths[i]) by {
        lemma_not_on_the_way(win.gets, w, paths, done, i);
        assert(look(t.state.files, paths[i]) == look(w.state.files, paths[i]));
        assert(look(t.pc, paths[i]) == look(w.pc, paths[i]));
    }
}

/// Turning the window keeps what holds between paths.
proof fn lemma_turned_keeps(
    win: WindowView,
    action: Action,
    stop: bool,
    w: World,
    start: World,
    paths: Seq<Chars>,
    done: int,
    due: Set<Chars>,
)
    requires
        under_way(win, w, start, paths, done, due),
        paths.no_duplicates(),
    ensures
        under_way(
            turned(win, action, stop).0,
            apply_all(w, turned(win, action, stop).1),
            start,
            paths,
            done,
            due,
        ),
        action != Action::ToAndroid || stop ==> turned(win, action, stop).0.puts.len() == 0,
        action != Action::ToPc || stop ==> turned(win, action, stop).0.gets.len() == 0,
{
    let (v, a) = if win.puts.len() > 0 && (action != Action::ToAndroid || stop) {
        puts_drained(win, win.puts)
    } else {
        (win, Seq::empty())
    };
    if win.puts.len() > 0 && (action != Action::ToAndroid || stop) {
        lemma_drain_puts_keeps(win, w, start, paths, done, due);
    }
    let t = apply_all(w, a);
    let (u, b) = if v.gets.len() > 0 && (action != Action::ToPc || stop) {
        gets_drained(v)
    } else {
        (v, Seq::empty())
    };
    if v.gets.len() > 0 && (action != Action::ToPc || stop) {
        lemma_drain_gets_keeps(v, t, start, paths, done, due);
    }
    lemma_concat(w, a, b);
}

/// Turning the window leaves the next path as it is.
proof fn lemma_turned_leaves(
    win: WindowView,
    action: Action,
    stop: bool,
    w: World,
    start: World,
    paths: Seq<Chars>,
    done: int,
    due: Set<Chars>,
)
    requires
        under_way(win, w, start, paths, done, due),
        paths.no_duplicates(),
        0 <= done < paths.len(),
    ensures
        same_at(apply_all(w, turned(win, action, stop).1), w, paths[done]),
{
    let here = paths[done];
    let (v, a) = if win.puts.len() > 0 && (action != Action::ToAndroid || stop) {
        puts_drained(win, win.puts)
    } else {
        (win, Seq::empty())
    };
    lemma_not_on_the_way(win.puts, w, paths, done, done);
    lemma_not_on_the_way(win.gets, w, paths, done, done);
    lemma_puts(win, win.puts, w);
    let t = apply_all(w, a);
    assert(same_at(t, w, here));
    let b = if v.gets.len() > 0 && (action != Action::ToPc || stop) {
        lemma_gets(v, t);
        gets_drained(v).1
    } else {
        Seq::empty()
    };
    assert(v.gets == win.gets);
    lemma_concat(w, a, b);
    assert(look(apply_all(t, b).pc, here) == look(t.pc, here));
    assert(look(apply_all(t, b).state.files, here) == look(t.state.files, here));
}

/// The path at `done` was dealt with, in a world that differs at that path
/// alone.
proof fn lemma_advance(
    win: WindowView,
    w: World,
    v: WindowView,
    t: World,
    start: World,
    paths: Seq<Chars>,
    done: int,
    due: Set<Chars>,
    aside: Option<Chars>,
)
    requires
        under_way(win, w, start, paths, done, due),
        paths.no_duplicates(),
        0 <= done < paths.len(),
        aside is Some ==> win.puts.len() == 0 && win.gets.len() == 0 && v.puts == win.puts && v.gets
            == win.gets && settled_at(t, aside->0) && aside->0 != paths[done] && (paths.skip(
            done,
        ).contains(aside->0) ==> filled_at(t, start, aside->0)),
        forall|p: Chars| p != paths[done] && Some(p) != aside ==> #[trigger] same_at(t, w, p),
        v.puts == win.puts || (v.puts.len() == win.puts.len() + 1 && v.puts.drop_last() == win.puts
            && v.puts.last().path == paths[done] && hash_of(look(t.pc, paths[done])) == Some(
            v.puts.last().entry.hash,
        ) && hash_of(look(t.android, paths[done])) == Some(v.puts.last().entry.hash)
            && win.gets.len() == 0),
        v.gets == win.gets || (v.gets.len() == win.gets.len() + 1 && v.gets.drop_last() == win.gets
            && v.gets.last().path == paths[done] && hash_of(look(t.android, paths[done])) == Some(
            v.gets.last().entry.hash,
        ) && win.puts.len() == 0 && v.puts.len() == 0),
        due.contains(paths[done]) ==> settled_at(t, paths[done]) || named(v.puts, paths[done])
            || named(v.gets, paths[done]),
    ensures
        under_way(v, t, start, paths, done + 1, due),
{
    let here = paths[done];
    assert(paths.take(done + 1) =~= paths.take(done).push(here));
    assert(paths.take(done + 1)[done] == here);
    lemma_not_on_the_way(win.puts, w, paths, done, done);
    lemma_not_on_the_way(win.gets, w, paths, done, done);
    assert forall|p: Chars| paths.take(done).contains(p) implies #[trigger] paths.take(
        done + 1,
    ).contains(p) && paths.contains(p) && p != here by {
        let m = choose|m: int| 0 <= m < paths.take(done).len() && paths.take(done)[m] == p;
        assert(paths.take(done + 1)[m] == p);
        assert(paths[m] == p);
    }
    assert(apart(v.puts)) by {
        assert forall|a: int, b: int|
            #![trigger v.puts[a], v.puts[b]]
            0 <= a < b < v.puts.len() implies v.puts[a].path != v.puts[b].path by {
            if b < win.puts.len() {
                assert(v.puts[a] == win.puts[a] && v.puts[b] == win.puts[b]);
            } else {
                assert(v.puts[a] == v.puts.drop_last()[a]);
                assert(win.puts[a].path != here);
            }
        }
    }
    assert(apart(v.gets)) by {
        assert forall|a: int, b: int|
            #![trigger v.gets[a], v.gets[b]]
            0 <= a < b < v.gets.len() implies v.gets[a].path != v.gets[b].path by {
            if b < win.gets.len() {
                assert(v.gets[a] == v.gets.drop_last()[a] || v.gets == win.gets);
                assert(v.gets[b] == v.gets.drop_last()[b] || v.gets == win.gets);
                assert(v.gets[a] == win.gets[a] && v.gets[b] == win.gets[b]);
            } else {
                assert(v.gets[a] == v.gets.drop_last()[a]);
                assert(win.gets[a].path != here);
            }
        }
    }
    assert forall|k: int| 0 <= k < v.puts.len() implies {
        let j = #[trigger] v.puts[k];
        &&& paths.take(done + 1).contains(j.path)
        &&& hash_of(look(t.pc, j.path)) == Some(j.entry.hash)
        &&& hash_of(look(t.android, j.path)) == Some(j.entry.hash)
        &&& !named(v.gets, j.path)
    } by {
        let j = v.puts[k];
        if k < win.puts.len() {
            assert(v.puts.drop_last()[k] == v.puts[k] || v.puts == win.puts);
            assert(win.puts[k] == j);
            assert(paths.take(done).contains(j.path));
            assert(paths.take(done + 1).contains(j.path));
            assert(same_at(t, w, j.path));
            assert(v.gets == win.gets);
        } else {
            assert(paths.take(done + 1).contains(here));
            if named(v.gets, here) {
                assert(v.gets == win.gets);
            }
        }
    }
    assert forall|k: int| 0 <= k < v.gets.len() implies {
        let j = #[trigger] v.gets[k];
        &&& paths.take(done + 1).contains(j.path)
        &&& hash_of(look(t.android, j.path)) == Some(j.entry.hash)
    } by {
        let j = v.gets[k];
        if k < win.gets.len() {
            assert(v.gets.drop_last()[k] == v.gets[k] || v.gets == win.gets);
            assert(win.gets[k] == j);
            assert(paths.take(done).contains(j.path));
            assert(paths.take(done + 1).contains(j.path));
            assert(same_at(t, w, j.path));
        } else {
            assert(paths.take(done + 1).contains(here));
        }
    }
    assert forall|i: int| 0 <= i < done + 1 && due.contains(#[trigger] paths[i]) implies settled_at(
        t,
        paths[i],
    ) || named(v.puts, paths[i]) || named(v.gets, paths[i]) by {
        if i < done {
            let p = paths[i];
            assert(paths.take(done)[i] == p);
            assert(paths.take(done).contains(p));
            assert(paths.take(done + 1).contains(p));
            if Some(p) != aside {
                assert(same_at(t, w, p));
            }
            if named(win.puts, p) {
                let k = choose|k: int|
                    0 <= k < win.puts.len() && (#[trigger] win.puts[k]).path == p;
                assert(v.puts.drop_last()[k] == v.puts[k] || v.puts == win.puts);
                assert(v.puts[k].path == p);
            }
            if named(win.gets, p) {
                let k = choose|k: int|
                    0 <= k < win.gets.len() && (#[trigger] win.gets[k]).path == p;
                assert(v.gets.drop_last()[k] == v.gets[k] || v.gets == win.gets);
                assert(v.gets[k].path == p);
            }
        }
    }
    assert forall|i: int| done + 1 <= i < paths.len() implies same_at(t, start, #[trigger] paths[i])
        || filled_at(t, start, paths[i]) by {
        assert(paths[i] != here);
        assert(paths.skip(done)[i - done] == paths[i]);
        assert(paths.skip(done).contains(paths[i]));
        if Some(paths[i]) != aside {
            assert(same_at(t, w, paths[i]));
            assert(same_at(w, start, paths[i]) || filled_at(w, start, paths[i]));
        }
    }
}

/// A path on which both sides agree is settled.
proof fn lemma_agreed_keeps(
    win: WindowView,
    w: World,
    start: World,
    paths: Seq<Chars>,
    done: int,
    due: Set<Chars>,
    pc: Option<EntryView>,
    android: Option<EntryView>,
)
    requires
        under_way(win, w, start, paths, done, due),
        paths.no_duplicates(),
        0 <= done < paths.len(),
        hash_of(look(w.pc, paths[done])) == hash_of(pc),
        hash_of(look(w.android, paths[done])) == hash_of(android),
        hash_of(pc) == hash_of(android),
    ensures
        under_way(
            agreed(win, paths[done], pc).0,
            apply_all(w, agreed(win, paths[done], pc).1),
            start,
            paths,
            done + 1,
            due,
        ),
{
    let here = paths[done];
    let (u, ops) = agreed(win, here, pc);
    let t = apply_all(w, ops);
    let none = Seq::<OpView>::empty();
    match pc {
        None => {
            let b = OpView::Base { path: here, hash: None };
            lemma_push(w, none, b);
            assert(ops =~= none.push(b));
            assert(t == apply(w, b));
        },
        Some(entry) => {
            let batch = acked(win, here, entry).1;
            lemma_acked_idle(win, here, entry);
            let first = OpView::Acknowledge { path: here, entry };
            let b = OpView::Base { path: here, hash: Some(entry.hash) };
            let o1 = none.push(first);
            lemma_push(w, none, first);
            lemma_concat(w, o1, batch);
            lemma_idle(apply_all(w, o1), batch);
            lemma_push(w, o1 + batch, b);
            assert(ops =~= (o1 + batch).push(b));
        },
    }
    assert(t.pc == w.pc && t.android == w.android);
    lemma_advance(win, w, u, t, start, paths, done, due, None);
}

/// A file for the phone is on its way, or has arrived.
proof fn lemma_sent_keeps(
    win: WindowView,
    w: World,
    start: World,
    paths: Seq<Chars>,
    done: int,
    due: Set<Chars>,
    pc: Option<EntryView>,
    android: Option<EntryView>,
)
    requires
        under_way(win, w, start, paths, done, due),
        paths.no_duplicates(),
        0 <= done < paths.len(),
        hash_of(look(w.pc, paths[done])) == hash_of(pc),
        pc is Some && win.gets.len() == 0,
    ensures
        under_way(
            sent(win, paths[done], pc->0, hash_of(android)).0,
            apply_all(w, sent(win, paths[done], pc->0, hash_of(android)).1),
            start,
            paths,
            done + 1,
            due,
        ),
{
    let here = paths[done];
    let (u, ops) = sent(win, here, pc->0, hash_of(android));
    let t = apply_all(w, ops);
    let none = Seq::<OpView>::empty();
    let entry = pc->0;
    let full = win.puts.len() == MAX_IN_FLIGHT_FILES || win.put_bytes + entry.size
        > MAX_STAGED_BYTES;
    let (v, drained) = if full {
        puts_drained(win, win.puts)
    } else {
        (win, none)
    };
    if full {
        lemma_drain_puts_keeps(win, w, start, paths, done, due);
        lemma_puts(win, win.puts, w);
    }
    let s0 = apply_all(w, drained);
    assert(under_way(v, s0, start, paths, done, due));
    assert(s0.pc == w.pc);
    let snap = OpView::Snapshot { path: here, entry };
    let put = OpView::Put {
        path: here,
        expected: hash_of(android),
        entry,
        staged: Staged::Local,
    };
    let o1 = drained.push(snap);
    let o2 = o1.push(put);
    lemma_push(w, drained, snap);
    lemma_push(w, o1, put);
    if entry.size > MAX_STAGED_BYTES {
        let a = OpView::Accept { path: here };
        let b = OpView::Base { path: here, hash: Some(entry.hash) };
        let c = OpView::Acknowledge { path: here, entry };
        lemma_push(w, o2, a);
        lemma_push(w, o2.push(a), b);
        lemma_push(w, o2.push(a).push(b), c);
        assert(ops =~= o2.push(a).push(b).push(c));
        assert(look(t.pc, here) == look(w.pc, here));
        assert(look(t.android, here) == Some(entry));
        assert(look(t.state.files, here) == Some(entry.hash));
        lemma_advance(v, s0, u, t, start, paths, done, due, None);
    } else {
        assert(ops =~= o2);
        assert(u.puts.drop_last() =~= v.puts);
        assert(u.puts.last().path == here);
        assert(u.puts[u.puts.len() - 1].path == here);
        assert(named(u.puts, here));
        lemma_advance(v, s0, u, t, start, paths, done, due, None);
    }
}

/// A file for the PC is on its way, or has arrived.
proof fn lemma_fetched_keeps(
    win: WindowView,
    w: World,
    start: World,
    paths: Seq<Chars>,
    done: int,
    due: Set<Chars>,
    pc: Option<EntryView>,
    android: Option<EntryView>,
)
    requires
        under_way(win, w, start, paths, done, due),
        paths.no_duplicates(),
        0 <= done < paths.len(),
        hash_of(look(w.android, paths[done])) == hash_of(android),
        android is Some && win.puts.len() == 0,
    ensures
        under_way(
            fetched(win, paths[done], android->0, hash_of(pc)).0,
            apply_all(w, fetched(win, paths[done], android->0, hash_of(pc)).1),
            start,
            paths,
            done + 1,
            due,
        ),
{
    let here = paths[done];
    let (u, ops) = fetched(win, here, android->0, hash_of(pc));
    let t = apply_all(w, ops);
    let none = Seq::<OpView>::empty();
    let entry = android->0;
    let full = win.gets.len() == MAX_IN_FLIGHT_FILES || win.get_bytes + entry.size
        > MAX_STAGED_BYTES;
    let (v, drained) = if full {
        gets_drained(win)
    } else {
        (win, none)
    };
    if full {
        lemma_drain_gets_keeps(win, w, start, paths, done, due);
        lemma_gets(win, w);
    }
    let s0 = apply_all(w, drained);
    assert(under_way(v, s0, start, paths, done, due));
    assert(s0.android == w.android);
    let get = OpView::Get { path: here, entry };
    let o1 = drained.push(get);
    lemma_push(w, drained, get);
    if entry.size > MAX_STAGED_BYTES {
        let batch = acked(v, here, entry).1;
        lemma_acked_idle(v, here, entry);
        let r = OpView::Receive { path: here, entry };
        let i = OpView::Install { path: here, expected: hash_of(pc), entry };
        let b = OpView::Base { path: here, hash: Some(entry.hash) };
        lemma_push(w, o1, r);
        lemma_push(w, o1.push(r), i);
        let o3 = o1.push(r).push(i);
        lemma_concat(w, o3, batch);
        lemma_idle(apply_all(w, o3), batch);
        lemma_push(w, o3 + batch, b);
        assert(ops =~= (o3 + batch).push(b));
        assert(look(t.pc, here) == Some(entry));
        assert(look(t.android, here) == look(w.android, here));
        assert(look(t.state.files, here) == Some(entry.hash));
        lemma_advance(v, s0, u, t, start, paths, done, due, None);
    } else {
        assert(ops =~= o1);
        assert(u.gets.drop_last() =~= v.gets);
        assert(u.gets[u.gets.len() - 1].path == here);
        assert(named(u.gets, here));
        lemma_advance(v, s0, u, t, start, paths, done, due, None);
    }
}

/// A conflict is settled at its path.
proof fn lemma_parted_keeps(
    win: WindowView,
    w: World,
    start: World,
    paths: Seq<Chars>,
    done: int,
    due: Set<Chars>,
    pc: Option<EntryView>,
    android: Option<EntryView>,
)
    requires
        under_way(win, w, start, paths, done, due),
        paths.no_duplicates(),
        0 <= done < paths.len(),
        look(w.pc, paths[done]) == pc,
        look(w.android, paths[done]) == android,
        pc is Some && android is Some && win.puts.len() == 0 && win.gets.len() == 0,
        aside_fits(start, paths, done, android->0.hash),
    ensures
        under_way(
            parted(win, paths[done], pc->0, android->0).0,
            apply_all(w, parted(win, paths[done], pc->0, android->0).1),
            start,
            paths,
            done + 1,
            due,
        ),
{
    let here = paths[done];
    let (u, ops) = parted(win, here, pc->0, android->0);
    let t = apply_all(w, ops);
    let none = Seq::<OpView>::empty();
    let p = pc->0;
    let a = android->0;
    let aside = conflict_name(here, a.hash);
    lemma_parted(w, here, p, a, ops, win);
    assert(look(t.pc, here) == Some(p));
    assert(look(t.pc, aside) == Some(a) && look(t.android, aside) == Some(a));
    assert(look(t.state.files, aside) == Some(a.hash));
    lemma_advance(win, w, u, t, start, paths, done, due, Some(aside));
}

/// Acting upon the next path settles it or puts it on its way.
proof fn lemma_acted_keeps(
    win: WindowView,
    action: Action,
    w: World,
    start: World,
    paths: Seq<Chars>,
    done: int,
    due: Set<Chars>,
    pc: Option<EntryView>,
    android: Option<EntryView>,
)
    requires
        under_way(win, w, start, paths, done, due),
        paths.no_duplicates(),
        0 <= done < paths.len(),
        action == Action::Nothing ==> hash_of(pc) == hash_of(android) && hash_of(
            look(w.pc, paths[done]),
        ) == hash_of(pc) && hash_of(look(w.android, paths[done])) == hash_of(android),
        action == Action::ToAndroid ==> pc is Some && win.gets.len() == 0 && hash_of(
            look(w.pc, paths[done]),
        ) == hash_of(pc),
        action == Action::ToPc ==> android is Some && win.puts.len() == 0 && hash_of(
            look(w.android, paths[done]),
        ) == hash_of(android),
        action == Action::Conflict ==> pc is Some && android is Some && win.puts.len() == 0
            && win.gets.len() == 0 && look(w.pc, paths[done]) == pc && look(w.android, paths[done])
            == android && aside_fits(start, paths, done, android->0.hash),
    ensures
        under_way(
            acted(win, action, paths[done], pc, android).0,
            apply_all(w, acted(win, action, paths[done], pc, android).1),
            start,
            paths,
            done + 1,
            due,
        ),
{
    match action {
        Action::Nothing => {
            lemma_agreed_keeps(win, w, start, paths, done, due, pc, android);
        },
        Action::ToAndroid => {
            lemma_sent_keeps(win, w, start, paths, done, due, pc, android);
        },
        Action::ToPc => {
            lemma_fetched_keeps(win, w, start, paths, done, due, pc, android);
        },
        Action::Conflict => {
            lemma_parted_keeps(win, w, start, paths, done, due, pc, android);
        },
    }
}

/// A conflict leaves the phone's version aside on both sides, and the PC's
/// version at the path.
pub(crate) proof fn lemma_parted(
    w: World,
    path: Chars,
    pc: EntryView,
    android: EntryView,
    ops: Seq<OpView>,
    win: WindowView,
)
    requires
        ops == parted(win, path, pc, android).1,
    ensures
        ({
            let aside = conflict_name(path, android.hash);
            let t = apply_all(w, ops);
            &&& t.pc == w.pc.insert(aside, android)
            &&& t.android == w.android.insert(aside, android).insert(path, pc)
            &&& t.state.files == w.state.files.insert(aside, android.hash).insert(path, pc.hash)
        }),
{
    let aside = conflict_name(path, android.hash);
    let none = Seq::<OpView>::empty();
    assert forall|i: int| 0 <= i < ops.len() implies #[trigger] ops.take(i + 1) == ops.take(i).push(
        ops[i],
    ) by {
        assert(ops.take(i + 1) =~= ops.take(i).push(ops[i]));
    }
    assert(ops.take(0) =~= none);
    assert(ops.take(12) =~= ops);
    assert(ops.len() == 12);
    lemma_push(w, ops.take(0), ops[0]);
    lemma_push(w, ops.take(1), ops[1]);
    lemma_push(w, ops.take(2), ops[2]);
    lemma_push(w, ops.take(3), ops[3]);
    lemma_push(w, ops.take(4), ops[4]);
    lemma_push(w, ops.take(5), ops[5]);
    lemma_push(w, ops.take(6), ops[6]);
    lemma_push(w, ops.take(7), ops[7]);
    lemma_push(w, ops.take(8), ops[8]);
    lemma_push(w, ops.take(9), ops[9]);
    lemma_push(w, ops.take(10), ops[10]);
    lemma_push(w, ops.take(11), ops[11]);
    assert(ops.take(0int + 1) == ops.take(0).push(ops[0]));
    assert(ops.take(1int + 1) == ops.take(1).push(ops[1]));
    assert(ops.take(2int + 1) == ops.take(2).push(ops[2]));
    assert(ops.take(3int + 1) == ops.take(3).push(ops[3]));
    assert(ops.take(4int + 1) == ops.take(4).push(ops[4]));
    assert(ops.take(5int + 1) == ops.take(5).push(ops[5]));
    assert(ops.take(6int + 1) == ops.take(6).push(ops[6]));
    assert(ops.take(7int + 1) == ops.take(7).push(ops[7]));
    assert(ops.take(8int + 1) == ops.take(8).push(ops[8]));
    assert(ops.take(9int + 1) == ops.take(9).push(ops[9]));
    assert(ops.take(10int + 1) == ops.take(10).push(ops[10]));
    assert(ops.take(11int + 1) == ops.take(11).push(ops[11]));
}

/// The paths that a round has to settle: those that neither the policy leaves
/// alone nor the mode forbids to touch.
pub open spec fn due_paths(r: RoundView, w: World, policy: Seq<Chars>) -> Set<Chars> {
    Set::new(
        |p: Chars|
            {
                let base = look(w.state.files, p);
                !ignored(policy, p, false) && !forbidden(
                    r.mode,
                    base,
                    r.remap,
                    decided(base, look(w.pc, p), look(w.android, p), r.remap),
                )
            },
    )
}

/// A path at which each side holds a content or nothing, and one of them holds
/// it.
pub open spec fn fits_at(w: World, p: Chars, hash: Chars) -> bool {
    let pc = hash_of(look(w.pc, p));
    let android = hash_of(look(w.android, p));
    (pc is None || pc == Some(hash)) && (android is None || android == Some(hash)) && (pc is Some
        || android is Some)
}

/// The place for a conflicting version is another path, and none that the
/// round comes to later, or one at which nothing else is held.
pub open spec fn aside_fits(w: World, paths: Seq<Chars>, i: int, hash: Chars) -> bool {
    let aside = conflict_name(paths[i], hash);
    aside != paths[i] && (paths.skip(i).contains(aside) ==> fits_at(w, aside, hash))
}

/// The places where the round puts conflicting versions fit.
pub open spec fn asides_fit(r: RoundView, w: World, policy: Seq<Chars>) -> bool {
    forall|i: int|
        0 <= i < r.paths.len() && due_paths(r, w, policy).contains(#[trigger] r.paths[i])
            && decided(
            look(w.state.files, r.paths[i]),
            look(w.pc, r.paths[i]),
            look(w.android, r.paths[i]),
            r.remap,
        ) == Action::Conflict ==> aside_fits(
            w,
            r.paths,
            i,
            look(w.android, r.paths[i])->0.hash,
        )
}

/// One path of a round keeps what holds between paths.
proof fn lemma_step_keeps(r: RoundView, w: World, start: World, policy: Seq<Chars>, due: Set<Chars>)
    requires
        under_way(r.window, w, start, r.paths, r.index, due),
        r.paths.no_duplicates(),
        0 <= r.index < r.paths.len(),
        r.pc == start.pc,
        r.android == start.android,
        asides_fit(r, start, policy),
        due == due_paths(r, start, policy),
    ensures
        ({
            let (next, ops) = next_step(r, w.state, policy);
            under_way(next.window, apply_all(w, ops), start, r.paths, r.index + 1, due)
        }),
{
    let here = r.paths[r.index];
    assert(same_at(w, start, here) || filled_at(w, start, here));
    let none = Seq::<OpView>::empty();
    if ignored(policy, here, false) {
        assert(!due.contains(here));
        lemma_advance(r.window, w, r.window, w, start, r.paths, r.index, due, None);
        assert(apply_all(w, none) == w);
    } else {
        let base = look(w.state.files, here);
        let pc = look(r.pc, here);
        let android = look(r.android, here);
        let action = decided(base, pc, android, r.remap);
        let stop = forbidden(r.mode, base, r.remap, action);
        let (v, drained) = turned(r.window, action, stop);
        lemma_turned_keeps(r.window, action, stop, w, start, r.paths, r.index, due);
        let s0 = apply_all(w, drained);
        lemma_turned_leaves(r.window, action, stop, w, start, r.paths, r.index, due);
        assert(same_at(s0, w, here));
        let shown = if action != Action::Nothing {
            seq![
                OpView::Progress { path: here, index: r.index, total: r.paths.len() as int },
            ]
        } else {
            none
        };
        lemma_concat(w, drained, shown);
        lemma_idle(s0, shown);
        let s1 = apply_all(w, drained + shown);
        assert(s1.pc == s0.pc && s1.android == s0.android && s1.state.files == s0.state.files);
        lemma_same_world(v, s0, s1, start, r.paths, r.index, due);
        if stop {
            let tail = seq![OpView::Mark { path: here }, OpView::Persist];
            lemma_concat(w, drained + shown, tail);
            lemma_idle(s1, tail);
            let t = apply_all(w, drained + shown + tail);
            assert(!due.contains(here) || settled_at(t, here));
            let u = next_step(r, w.state, policy).0.window;
            assert(u.puts == v.puts && u.gets == v.gets);
            lemma_advance(v, s1, u, t, start, r.paths, r.index, due, None);
            assert(next_step(r, w.state, policy).1 == drained + shown + tail);
        } else {
            let cleared = if action != Action::Conflict && !begins(here, "Rowd Conflicts/"@) {
                seq![OpView::Clear { path: here }]
            } else {
                none
            };
            lemma_concat(w, drained + shown, cleared);
            lemma_idle(s1, cleared);
            let s2 = apply_all(w, drained + shown + cleared);
            lemma_same_world(v, s1, s2, start, r.paths, r.index, due);
            let (u, acts) = acted(v, action, here, pc, android);
            assert(r.paths[r.index] == here);
            lemma_acted_keeps(v, action, s2, start, r.paths, r.index, due, pc, android);
            lemma_concat(w, drained + shown + cleared, acts);
            let stored = if new_base(base, action, pc, android) != base {
                seq![OpView::Persist]
            } else {
                none
            };
            let s3 = apply_all(w, drained + shown + cleared + acts);
            lemma_concat(w, drained + shown + cleared + acts, stored);
            lemma_idle(s3, stored);
            let t = apply_all(w, drained + shown + cleared + acts + stored);
            lemma_same_world(u, s3, t, start, r.paths, r.index + 1, due);
            assert(next_step(r, w.state, policy).1 == drained + shown + cleared + acts + stored);
        }
    }
}

proof fn lemma_same_world(
    win: WindowView,
    a: World,
    b: World,
    start: World,
    paths: Seq<Chars>,
    done: int,
    due: Set<Chars>,
)
    requires
        under_way(win, a, start, paths, done, due),
        a.pc == b.pc,
        a.android == b.android,
        a.state.files == b.state.files,
    ensures
        under_way(win, b, start, paths, done, due),
{
    assert forall|i: int| 0 <= i < done && due.contains(#[trigger] paths[i]) implies settled_at(
        b,
        paths[i],
    ) || named(win.puts, paths[i]) || named(win.gets, paths[i]) by {
        assert(settled_at(a, paths[i]) == settled_at(b, paths[i]));
    }
    assert forall|i: int| done <= i < paths.len() implies same_at(b, start, #[trigger] paths[i])
        || filled_at(b, start, paths[i]) by {
        assert(same_at(a, start, paths[i]) || filled_at(a, start, paths[i]));
    }
}

proof fn lemma_run(r: RoundView, w: World, start: World, policy: Seq<Chars>, due: Set<Chars>)
    requires
        under_way(r.window, w, start, r.paths, r.index, due),
        r.paths.no_duplicates(),
        0 <= r.index <= r.paths.len(),
        r.pc == start.pc,
        r.android == start.android,
        asides_fit(r, start, policy),
        due == due_paths(r, start, policy),
    ensures
        forall|i: int|
            0 <= i < r.paths.len() && due.contains(#[trigger] r.paths[i]) ==> settled_at(
                run(r, w, policy),
                r.paths[i],
            ),
    decreases r.paths.len() - r.index,
{
    if r.index < r.paths.len() {
        lemma_step_keeps(r, w, start, policy, due);
        let (next, ops) = next_step(r, w.state, policy);
        assert(due =~= due_paths(next, start, policy));
        assert(asides_fit(next, start, policy));
        lemma_run(next, apply_all(w, ops), start, policy, due);
    } else {
        let (a, x) = puts_drained(r.window, r.window.puts);
        lemma_drain_puts_keeps(r.window, w, start, r.paths, r.index, due);
        let w1 = apply_all(w, x);
        let (b, y) = gets_drained(a);
        lemma_drain_gets_keeps(a, w1, start, r.paths, r.index, due);
        lemma_concat(w, x, y);
        let w2 = apply_all(w, x + y);
        let z = flushed(b).1;
        let last = seq![
            OpView::Progress {
                path: Seq::empty(),
                index: r.paths.len() as int,
                total: r.paths.len() as int,
            },
        ];
        lemma_concat(w, x + y, z);
        lemma_idle(w2, z);
        lemma_concat(w, x + y + z, last);
        lemma_idle(apply_all(w, x + y + z), last);
        let t = apply_all(w, x + y + z + last);
        lemma_same_world(b, w2, t, start, r.paths, r.index, due);
        assert(run(r, w, policy) == t);
        assert forall|i: int|
            0 <= i < r.paths.len() && due.contains(#[trigger] r.paths[i]) implies settled_at(
            t,
            r.paths[i],
        ) by {
            assert(!named(b.puts, r.paths[i]));
            assert(!named(b.gets, r.paths[i]));
        }
    }
}

/// A round converges: once all its steps are done, both sides hold the same
/// content at every path that the policy and the mode let it touch, and the
/// agreed state records it. Left out are rounds that come to a path after a
/// conflicting version of another was put there, where a side held another
/// content at it or neither held a file.
pub proof fn law_round_converges(r: RoundView, w: World, policy: Seq<Chars>)
    requires
        r.index == 0,
        r.window == empty_window(),
        r.paths.no_duplicates(),
        r.pc == w.pc,
        r.android == w.android,
        asides_fit(r, w, policy),
    ensures
        forall|i: int|
            0 <= i < r.paths.len() && due_paths(r, w, policy).contains(#[trigger] r.paths[i])
                ==> settled_at(run(r, w, policy), r.paths[i]),
{
    let due = due_paths(r, w, policy);
    assert(under_way(r.window, w, w, r.paths, 0, due)) by {
        assert(r.paths.take(0) =~= Seq::<Chars>::empty());
    }
    lemma_run(r, w, w, policy, due);
}

/// The steps for a path write to a side only where its mode lets files move
/// that way, unless the Share was just remapped: a Share that moves files to
/// the phone installs none on the PC, and the other way round.
pub proof fn law_mode_is_kept(
    w: WindowView,
    path: Chars,
    base: Option<Chars>,
    pc: Option<EntryView>,
    android: Option<EntryView>,
    mode: SyncMode,
    remap: Option<RemapPolicy>,
    at: (int, int),
)
    requires
        w.puts.len() == 0,
        w.gets.len() == 0,
        !(base is None && remap is Some),
    ensures
        ({
            let (v, ops) = path_step(w, path, at, base, (pc, android), (mode, remap));
            &&& mode == SyncMode::ToAndroid ==> v.gets.len() == 0 && forall|i: int|
                0 <= i < ops.len() ==> !(#[trigger] ops[i] is Install) && !(ops[i] is Get)
            &&& mode == SyncMode::ToPc ==> v.puts.len() == 0 && forall|i: int|
                0 <= i < ops.len() ==> !(#[trigger] ops[i] is Put)
        }),
{
    let action = decided(base, pc, android, remap);
    let stop = forbidden(mode, base, remap, action);
    assert(turned(w, action, stop).0 == w);
    assert(turned(w, action, stop).1 =~= Seq::<OpView>::empty());
    if pc is Some {
        lemma_acked_idle(w, path, pc->0);
    }
    if android is Some {
        lemma_acked_idle(w, path, android->0);
    }
    assert(puts_drained(w, w.puts).1.len() == 0);
    assert(gets_drained(w).1.len() == 0);
}

/// Where both sides hold the same content and it is already agreed on, a path
/// takes no transfer and the state is not stored again.
pub proof fn law_quiet_path(
    w: WindowView,
    path: Chars,
    pc: Option<EntryView>,
    android: Option<EntryView>,
    mode: SyncMode,
    remap: Option<RemapPolicy>,
    at: (int, int),
)
    requires
        w.puts.len() == 0,
        w.gets.len() == 0,
        hash_of(pc) == hash_of(android),
    ensures
        ({
            let ops = path_step(w, path, at, hash_of(pc), (pc, android), (mode, remap)).1;
            forall|i: int|
                0 <= i < ops.len() ==> !(#[trigger] ops[i] is Put) && !(ops[i] is Get) && !(
                ops[i] is Install) && !(ops[i] is Persist) && !(ops[i] is Snapshot)
        }),
{
    let action = decided(hash_of(pc), pc, android, remap);
    assert(action == Action::Nothing);
    assert(turned(w, action, false).1 =~= Seq::<OpView>::empty());
    if pc is Some {
        let (v, batch) = acked(w, path, pc->0);
        assert forall|i: int| 0 <= i < batch.len() implies #[trigger] batch[i] is SendAcks by {}
    }
}

/// In a conflict the phone's version is installed on the PC and confirmed on
/// the phone, under a name of its own, before its original path is written.
pub proof fn law_conflict_preserves_first(
    w: WindowView,
    path: Chars,
    pc: EntryView,
    android: EntryView,
)
    ensures
        ({
            let ops = parted(w, path, pc, android).1;
            let aside = conflict_name(path, android.hash);
            exists|i: int, j: int, k: int|
                #![trigger ops[i], ops[j], ops[k]]
                0 <= i < j < k < ops.len() && ops[i] == (OpView::Install {
                    path: aside,
                    expected: None,
                    entry: android,
                }) && ops[j] == (OpView::Accept { path: aside }) && ops[k] == (OpView::Put {
                    path,
                    expected: Some(android.hash),
                    entry: pc,
                    staged: Staged::Local,
                }) && forall|m: int|
                    0 <= m < k ==> !(#[trigger] ops[m] matches OpView::Put {
                        path: p,
                        expected: e,
                        entry: n,
                        staged: s,
                    } && p == path && p != aside)
        }),
{
    let ops = parted(w, path, pc, android).1;
    let aside = conflict_name(path, android.hash);
    assert(ops[3] == (OpView::Install { path: aside, expected: None, entry: android }));
    assert(ops[5] == (OpView::Accept { path: aside }));
    assert(ops[6] == (OpView::Put {
        path,
        expected: Some(android.hash),
        entry: pc,
        staged: Staged::Local,
    }));
}

} // verus!
