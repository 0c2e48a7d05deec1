//! What a whole round never loses: no file disappears, and a version that only
//! one side had is still there afterwards.

use crate::config::{RemapPolicy, SyncMode};
use crate::convergence::{
    apply, apply_all, idle, lemma_acked_idle, lemma_concat, lemma_parted, lemma_push, run, settled_at,
    World,
};
use crate::ignore::ignored;
use crate::journal::look;
use crate::model::{conflict_name, valid_hash, Action, EntryView};
use crate::primitives::{hex_digit, hex_text, sha256_of};
use crate::storage::hash_of;
use crate::sync::{
    acked, acted, agreed, decided, empty_window, fetched, flushed, forbidden, gets_drained,
    gets_installed, last_steps, new_base, next_step, puts_drained, receipts, sent, turned, JobView,
    OpView, RoundView, Staged, WindowView, MAX_IN_FLIGHT_FILES, MAX_STAGED_BYTES,
};
use crate::text::{begins, Chars};
use vstd::prelude::*;
use vstd::utf8::encode_utf8;

verus! {

proof fn lemma_apply_keeps_files(w: World, op: OpView)
    ensures
        w.pc.dom().subset_of(apply(w, op).pc.dom()),
        w.android.dom().subset_of(apply(w, op).android.dom()),
{
}

proof fn lemma_steps_keep_files(w: World, ops: Seq<OpView>)
    ensures
        w.pc.dom().subset_of(apply_all(w, ops).pc.dom()),
        w.android.dom().subset_of(apply_all(w, ops).android.dom()),
    decreases ops.len(),
{
    if ops.len() > 0 {
        lemma_steps_keep_files(w, ops.drop_last());
        lemma_apply_keeps_files(apply_all(w, ops.drop_last()), ops.last());
    }
}

/// Deletions do not spread: whatever a round does, a path at which a side held
/// a file is one at which it holds a file afterwards.
pub proof fn law_deletions_do_not_spread(r: RoundView, w: World, policy: Seq<Chars>)
    ensures
        w.pc.dom().subset_of(run(r, w, policy).pc.dom()),
        w.android.dom().subset_of(run(r, w, policy).android.dom()),
    decreases r.paths.len() - r.index,
{
    if r.index < 0 || r.index >= r.paths.len() {
        lemma_steps_keep_files(w, last_steps(r).1);
    } else {
        let (next, ops) = next_step(r, w.state, policy);
        lemma_steps_keep_files(w, ops);
        law_deletions_do_not_spread(next, apply_all(w, ops), policy);
    }
}

/// At this path both sides hold versions that the other does not know, and the
/// round may keep both.
pub open spec fn splits(r: RoundView, w: World, policy: Seq<Chars>, p: Chars) -> bool {
    let base = look(w.state.files, p);
    &&& !ignored(policy, p, false)
    &&& decided(base, look(w.pc, p), look(w.android, p), r.remap) == Action::Conflict
    &&& !forbidden(r.mode, base, r.remap, Action::Conflict)
}

/// Where the phone's version of a path is kept in a conflict.
pub open spec fn aside(w: World, p: Chars) -> Chars {
    conflict_name(p, look(w.android, p)->0.hash)
}

/// One of the round's conflicts keeps the phone's version at this path.
pub open spec fn is_aside(r: RoundView, w: World, policy: Seq<Chars>, q: Chars) -> bool {
    exists|i: int|
        0 <= i < r.paths.len() && splits(r, w, policy, #[trigger] r.paths[i]) && aside(
            w,
            r.paths[i],
        ) == q
}

/// Where the round keeps the phone's version of a conflicting file, neither
/// side holds other content.
pub open spec fn asides_clear(r: RoundView, w: World, policy: Seq<Chars>) -> bool {
    forall|i: int|
        0 <= i < r.paths.len() && splits(r, w, policy, #[trigger] r.paths[i]) ==> {
            let q = aside(w, r.paths[i]);
            let h = hash_of(look(w.android, r.paths[i]));
            &&& look(w.pc, q) is Some ==> hash_of(look(w.pc, q)) == h
            &&& look(w.android, q) is Some ==> hash_of(look(w.android, q)) == h
        }
}

/// Every file of the phone has the text of a digest.
pub open spec fn hashes_sound(files: Map<Chars, EntryView>) -> bool {
    forall|p: Chars| #[trigger] files.dom().contains(p) ==> valid_hash(files[p].hash)
}

/// Both sides hold the phone's version of a conflicting path aside.
pub open spec fn held_aside(start: World, t: World, p: Chars) -> bool {
    let h = hash_of(look(start.android, p));
    hash_of(look(t.pc, aside(start, p))) == h && hash_of(look(t.android, aside(start, p))) == h
}

/// The round comes to this path before its path number `done`.
spec fn visited(c: RoundView, done: int, p: Chars) -> bool {
    exists|k: int| 0 <= k < done && k < c.paths.len() && #[trigger] c.paths[k] == p
}

/// Content at this path is the content of every conflict that is kept there.
spec fn fits_aside(c: RoundView, start: World, policy: Seq<Chars>, p: Chars, e: EntryView) -> bool {
    forall|i: int|
        0 <= i < c.paths.len() && splits(c, start, policy, #[trigger] c.paths[i]) && aside(
            start,
            c.paths[i],
        ) == p ==> hash_of(look(start.android, c.paths[i])) == Some(e.hash)
}

/// A step writes only over nothing, over a version that both sides agreed on,
/// over the same content, or over a version that is kept aside; and it notes
/// agreements only for paths that the round has come to.
spec fn fair(c: RoundView, start: World, policy: Seq<Chars>, done: int, op: OpView) -> bool {
    match op {
        OpView::Put { path, expected, entry, staged } => {
            let cur = hash_of(look(start.android, path));
            &&& cur is None || cur == look(start.state.files, path) || cur == Some(entry.hash) || (
            splits(c, start, policy, path) && c.paths.contains(path))
            &&& fits_aside(c, start, policy, path, entry)
        },
        OpView::Install { path, expected, entry } => {
            let cur = hash_of(look(start.pc, path));
            &&& cur is None || cur == look(start.state.files, path) || cur == Some(entry.hash)
            &&& fits_aside(c, start, policy, path, entry)
        },
        OpView::Base { path, hash } => visited(c, done, path) || is_aside(c, start, policy, path),
        _ => true,
    }
}

spec fn all_fair(
    c: RoundView,
    start: World,
    policy: Seq<Chars>,
    done: int,
    ops: Seq<OpView>,
) -> bool {
    forall|i: int| 0 <= i < ops.len() ==> fair(c, start, policy, done, #[trigger] ops[i])
}

/// Every version of the start is unchanged at its path, or was agreed on, or
/// is one that a conflict keeps aside.
spec fn kept(c: RoundView, start: World, policy: Seq<Chars>, t: World) -> bool {
    &&& forall|p: Chars|
        look(start.pc, p) is Some ==> hash_of(#[trigger] look(t.pc, p)) == hash_of(
            look(start.pc, p),
        ) || look(start.state.files, p) == hash_of(look(start.pc, p))
    &&& forall|p: Chars|
        look(start.android, p) is Some ==> hash_of(#[trigger] look(t.android, p)) == hash_of(
            look(start.android, p),
        ) || look(start.state.files, p) == hash_of(look(start.android, p)) || (splits(
            c,
            start,
            policy,
            p,
        ) && c.paths.contains(p))
}

/// What was agreed on is as it was at the paths that are still to come.
spec fn base_as_was(c: RoundView, start: World, policy: Seq<Chars>, done: int, t: World) -> bool {
    forall|k: int|
        done <= k < c.paths.len() && !is_aside(c, start, policy, #[trigger] c.paths[k]) ==> look(
            t.state.files,
            c.paths[k],
        ) == look(start.state.files, c.paths[k])
}

/// The files on their way can be installed without a loss.
spec fn fair_window(
    c: RoundView,
    start: World,
    policy: Seq<Chars>,
    done: int,
    win: WindowView,
) -> bool {
    &&& forall|k: int| 0 <= k < win.puts.len() ==> visited(c, done, (#[trigger] win.puts[k]).path)
    &&& fair_jobs(c, start, policy, done, win.gets)
}

spec fn fair_jobs(
    c: RoundView,
    start: World,
    policy: Seq<Chars>,
    done: int,
    jobs: Seq<JobView>,
) -> bool {
    forall|k: int|
        0 <= k < jobs.len() ==> visited(c, done, (#[trigger] jobs[k]).path) && fair(
            c,
            start,
            policy,
            done,
            OpView::Install {
                path: jobs[k].path,
                expected: jobs[k].expected,
                entry: jobs[k].entry,
            },
        )
}

/// What holds between two paths of a round.
spec fn sparing(
    c: RoundView,
    start: World,
    policy: Seq<Chars>,
    done: int,
    win: WindowView,
    t: World,
) -> bool {
    &&& kept(c, start, policy, t)
    &&& base_as_was(c, start, policy, done, t)
    &&& fair_window(c, start, policy, done, win)
    &&& forall|i: int|
        0 <= i < done && i < c.paths.len() && splits(c, start, policy, #[trigger] c.paths[i])
            ==> held_aside(start, t, c.paths[i])
}

proof fn lemma_fair_concat(
    c: RoundView,
    start: World,
    policy: Seq<Chars>,
    done: int,
    a: Seq<OpView>,
    b: Seq<OpView>,
)
    requires
        all_fair(c, start, policy, done, a),
        all_fair(c, start, policy, done, b),
    ensures
        all_fair(c, start, policy, done, a + b),
{
    assert forall|i: int| 0 <= i < (a + b).len() implies fair(
        c,
        start,
        policy,
        done,
        #[trigger] (a + b)[i],
    ) by {
        if i < a.len() {
            assert((a + b)[i] == a[i]);
        } else {
            assert((a + b)[i] == b[i - a.len()]);
        }
    }
}

proof fn lemma_idle_fair(c: RoundView, start: World, policy: Seq<Chars>, done: int, ops: Seq<OpView>)
    requires
        forall|i: int| 0 <= i < ops.len() ==> idle(#[trigger] ops[i]),
    ensures
        all_fair(c, start, policy, done, ops),
{
}

/// A fair step loses nothing, and leaves alone what is kept aside.
proof fn lemma_fair_step(
    c: RoundView,
    start: World,
    policy: Seq<Chars>,
    done: int,
    t: World,
    op: OpView,
)
    requires
        fair(c, start, policy, done, op),
        kept(c, start, policy, t),
        base_as_was(c, start, policy, done, t),
        c.paths.no_duplicates(),
    ensures
        kept(c, start, policy, apply(t, op)),
        base_as_was(c, start, policy, done, apply(t, op)),
        forall|i: int|
            0 <= i < c.paths.len() && splits(c, start, policy, #[trigger] c.paths[i]) && held_aside(
                start,
                t,
                c.paths[i],
            ) ==> held_aside(start, apply(t, op), c.paths[i]),
{
    let u = apply(t, op);
    match op {
        OpView::Put { path, expected, entry, staged } => {
            assert forall|p: Chars| look(start.android, p) is Some implies hash_of(
                #[trigger] look(u.android, p),
            ) == hash_of(look(start.android, p)) || look(start.state.files, p) == hash_of(
                look(start.android, p),
            ) || (splits(c, start, policy, p) && c.paths.contains(p)) by {
                if p != path {
                    assert(look(u.android, p) == look(t.android, p));
                }
            }
            assert forall|i: int|
                0 <= i < c.paths.len() && splits(c, start, policy, #[trigger] c.paths[i])
                    && held_aside(start, t, c.paths[i]) implies held_aside(
                start,
                u,
                c.paths[i],
            ) by {
                let q = aside(start, c.paths[i]);
                if q != path {
                    assert(look(u.android, q) == look(t.android, q));
                }
            }
        },
        OpView::Install { path, expected, entry } => {
            assert forall|p: Chars| look(start.pc, p) is Some implies hash_of(
                #[trigger] look(u.pc, p),
            ) == hash_of(look(start.pc, p)) || look(start.state.files, p) == hash_of(
                look(start.pc, p),
            ) by {
                if p != path {
                    assert(look(u.pc, p) == look(t.pc, p));
                }
            }
            assert forall|i: int|
                0 <= i < c.paths.len() && splits(c, start, policy, #[trigger] c.paths[i])
                    && held_aside(start, t, c.paths[i]) implies held_aside(
                start,
                u,
                c.paths[i],
            ) by {
                let q = aside(start, c.paths[i]);
                if q != path {
                    assert(look(u.pc, q) == look(t.pc, q));
                }
            }
        },
        OpView::Base { path, hash } => {
            assert forall|k: int|
                done <= k < c.paths.len() && !is_aside(
                    c,
                    start,
                    policy,
                    #[trigger] c.paths[k],
                ) implies look(u.state.files, c.paths[k]) == look(
                start.state.files,
                c.paths[k],
            ) by {
                if path == c.paths[k] {
                    let m = choose|m: int|
                        0 <= m < done && m < c.paths.len() && #[trigger] c.paths[m] == path;
                    assert(c.paths[m] == c.paths[k]);
                    assert(false);
                }
                assert(look(t.state.files, c.paths[k]) == look(start.state.files, c.paths[k]));
            }
        },
        _ => {
            assert(u.pc == t.pc && u.android == t.android && u.state.files == t.state.files);
        },
    }
}

proof fn lemma_fair_steps(
    c: RoundView,
    start: World,
    policy: Seq<Chars>,
    done: int,
    t: World,
    ops: Seq<OpView>,
)
    requires
        all_fair(c, start, policy, done, ops),
        kept(c, start, policy, t),
        base_as_was(c, start, policy, done, t),
        c.paths.no_duplicates(),
    ensures
        kept(c, start, policy, apply_all(t, ops)),
        base_as_was(c, start, policy, done, apply_all(t, ops)),
        forall|i: int|
            0 <= i < c.paths.len() && splits(c, start, policy, #[trigger] c.paths[i]) && held_aside(
                start,
                t,
                c.paths[i],
            ) ==> held_aside(start, apply_all(t, ops), c.paths[i]),
    decreases ops.len(),
{
    if ops.len() > 0 {
        let some = ops.drop_last();
        assert forall|i: int| 0 <= i < some.len() implies fair(
            c,
            start,
            policy,
            done,
            #[trigger] some[i],
        ) by {
            assert(some[i] == ops[i]);
        }
        lemma_fair_steps(c, start, policy, done, t, some);
        assert(fair(c, start, policy, done, ops[ops.len() - 1]));
        lemma_fair_step(c, start, policy, done, apply_all(t, some), ops.last());
    }
}

proof fn lemma_puts_fair(
    c: RoundView,
    start: World,
    policy: Seq<Chars>,
    done: int,
    v: WindowView,
    jobs: Seq<JobView>,
)
    requires
        forall|k: int| 0 <= k < jobs.len() ==> visited(c, done, (#[trigger] jobs[k]).path),
    ensures
        all_fair(c, start, policy, done, puts_drained(v, jobs).1),
        puts_drained(v, jobs).0.puts == Seq::<JobView>::empty(),
        puts_drained(v, jobs).0.gets == v.gets,
    decreases jobs.len(),
{
    if jobs.len() > 0 {
        let some = jobs.drop_last();
        assert forall|k: int| 0 <= k < some.len() implies visited(
            c,
            done,
            (#[trigger] some[k]).path,
        ) by {
            assert(some[k] == jobs[k]);
        }
        lemma_puts_fair(c, start, policy, done, v, some);
        let j = jobs.last();
        assert(visited(c, done, jobs[jobs.len() - 1].path));
        let tail = seq![
            OpView::Accept { path: j.path },
            OpView::Base { path: j.path, hash: Some(j.entry.hash) },
            OpView::Acknowledge { path: j.path, entry: j.entry },
            OpView::Persist,
        ];
        assert(all_fair(c, start, policy, done, tail));
        lemma_fair_concat(c, start, policy, done, puts_drained(v, some).1, tail);
    }
}

proof fn lemma_installs_fair(
    c: RoundView,
    start: World,
    policy: Seq<Chars>,
    done: int,
    v: WindowView,
    jobs: Seq<JobView>,
)
    requires
        fair_jobs(c, start, policy, done, jobs),
    ensures
        all_fair(c, start, policy, done, gets_installed(v, jobs).1),
        gets_installed(v, jobs).0.gets == Seq::<JobView>::empty(),
        gets_installed(v, jobs).0.puts == v.puts,
    decreases jobs.len(),
{
    if jobs.len() > 0 {
        let some = jobs.drop_last();
        assert(fair_jobs(c, start, policy, done, some)) by {
            assert forall|k: int| 0 <= k < some.len() implies visited(
                c,
                done,
                (#[trigger] some[k]).path,
            ) && fair(
                c,
                start,
                policy,
                done,
                OpView::Install {
                    path: some[k].path,
                    expected: some[k].expected,
                    entry: some[k].entry,
                },
            ) by {
                assert(some[k] == jobs[k]);
            }
        }
        lemma_installs_fair(c, start, policy, done, v, some);
        let j = jobs.last();
        assert(jobs[jobs.len() - 1] == j);
        let (u, before) = gets_installed(v, some);
        let put_in = seq![
            OpView::Install { path: j.path, expected: j.expected, entry: j.entry },
        ];
        let batch = acked(u, j.path, j.entry).1;
        lemma_acked_idle(u, j.path, j.entry);
        lemma_idle_fair(c, start, policy, done, batch);
        let tail = seq![
            OpView::Base { path: j.path, hash: Some(j.entry.hash) },
            OpView::Persist,
        ];
        assert(all_fair(c, start, policy, done, put_in));
        assert(all_fair(c, start, policy, done, tail));
        lemma_fair_concat(c, start, policy, done, before, put_in);
        lemma_fair_concat(c, start, policy, done, before + put_in, batch);
        lemma_fair_concat(c, start, policy, done, before + put_in + batch, tail);
        assert(gets_installed(v, jobs).1 =~= before + put_in + batch + tail);
    }
}

proof fn lemma_gets_fair(c: RoundView, start: World, policy: Seq<Chars>, done: int, v: WindowView)
    requires
        fair_jobs(c, start, policy, done, v.gets),
    ensures
        all_fair(c, start, policy, done, gets_drained(v).1),
        gets_drained(v).0.gets == Seq::<JobView>::empty(),
        gets_drained(v).0.puts == v.puts,
{
    let got = receipts(v.gets);
    assert forall|i: int| 0 <= i < got.len() implies idle(#[trigger] got[i]) by {}
    lemma_idle_fair(c, start, policy, done, got);
    lemma_installs_fair(c, start, policy, done, v, v.gets);
    lemma_fair_concat(c, start, policy, done, got, gets_installed(v, v.gets).1);
}

proof fn lemma_turned_fair(
    c: RoundView,
    start: World,
    policy: Seq<Chars>,
    done: int,
    win: WindowView,
    action: Action,
    stop: bool,
)
    requires
        fair_window(c, start, policy, done, win),
    ensures
        all_fair(c, start, policy, done, turned(win, action, stop).1),
        fair_window(c, start, policy, done, turned(win, action, stop).0),
        action != Action::ToAndroid || stop ==> turned(win, action, stop).0.puts.len() == 0,
        action != Action::ToPc || stop ==> turned(win, action, stop).0.gets.len() == 0,
{
    let none = Seq::<OpView>::empty();
    let (v, a) = if win.puts.len() > 0 && (action != Action::ToAndroid || stop) {
        puts_drained(win, win.puts)
    } else {
        (win, none)
    };
    lemma_puts_fair(c, start, policy, done, win, win.puts);
    assert(fair_window(c, start, policy, done, v));
    assert(all_fair(c, start, policy, done, a));
    let (u, b) = if v.gets.len() > 0 && (action != Action::ToPc || stop) {
        gets_drained(v)
    } else {
        (v, none)
    };
    lemma_gets_fair(c, start, policy, done, v);
    assert(all_fair(c, start, policy, done, b));
    lemma_fair_concat(c, start, policy, done, a, b);
}

/// A text of hexadecimal digits holds no slash.
proof fn lemma_hex_has_no_slash(b: Seq<u8>, i: int)
    requires
        0 <= i < hex_text(b).len(),
    ensures
        hex_text(b)[i] != '/',
{
    let d = if i % 2 == 0 {
        b[i / 2] as int / 16
    } else {
        b[i / 2] as int % 16
    };
    assert(0 <= d < 16);
    assert(hex_text(b)[i] == hex_digit(d));
    if d < 10 {
        assert(hex_digit(d) as u32 == '0' as u32 + d);
    } else {
        assert(hex_digit(d) as u32 == 'a' as u32 + (d - 10));
    }
}

/// Two conflicts that keep the phone's version at one place keep the same
/// content there.
proof fn lemma_aside_tells_content(p: Chars, h: Chars, q: Chars, g: Chars)
    requires
        valid_hash(h),
        valid_hash(g),
        conflict_name(p, h) == conflict_name(q, g),
    ensures
        h == g,
{
    let a = hex_text(sha256_of(encode_utf8(p)));
    let b = hex_text(sha256_of(encode_utf8(q)));
    let s = conflict_name(p, h);
    let first = "Rowd Conflicts/"@;
    let n = first.len() as int;
    assert(s[n + a.len()] == '/');
    assert(s[n + b.len()] == '/') by {
        assert(conflict_name(q, g)[n + b.len()] == '/');
    }
    if a.len() < b.len() {
        assert(conflict_name(q, g)[n + a.len()] == b[a.len() as int]);
        lemma_hex_has_no_slash(sha256_of(encode_utf8(q)), a.len() as int);
    }
    if b.len() < a.len() {
        assert(s[n + b.len()] == a[b.len() as int]);
        lemma_hex_has_no_slash(sha256_of(encode_utf8(p)), b.len() as int);
    }
    assert(a.len() == b.len());
    assert forall|i: int| 0 <= i < 64 implies #[trigger] h[i] == g[i] by {
        assert(s[n + a.len() + 1 + i] == h[i]);
        assert(conflict_name(q, g)[n + b.len() + 1 + i] == g[i]);
    }
    assert(h =~= g);
}

/// The context of a round that is about to begin.
spec fn sound(c: RoundView, start: World, policy: Seq<Chars>) -> bool {
    &&& c.paths.no_duplicates()
    &&& c.pc == start.pc
    &&& c.android == start.android
    &&& c.remap is None || c.remap == Some(RemapPolicy::Compare)
    &&& asides_clear(c, start, policy)
    &&& hashes_sound(start.android)
}

/// A file that is sent or fetched at its own path is a fair write.
proof fn lemma_own_path_fair(
    c: RoundView,
    start: World,
    policy: Seq<Chars>,
    done: int,
    base: Option<Chars>,
)
    requires
        sound(c, start, policy),
        0 <= done < c.paths.len(),
        base == look(start.state.files, c.paths[done]) || is_aside(
            c,
            start,
            policy,
            c.paths[done],
        ),
    ensures
        ({
            let here = c.paths[done];
            let pc = look(start.pc, here);
            let android = look(start.android, here);
            let action = decided(base, pc, android, c.remap);
            &&& action == Action::ToAndroid ==> pc is Some && fair(
                c,
                start,
                policy,
                done + 1,
                OpView::Put {
                    path: here,
                    expected: hash_of(android),
                    entry: pc->0,
                    staged: Staged::Local,
                },
            )
            &&& action == Action::ToPc ==> android is Some && fair(
                c,
                start,
                policy,
                done + 1,
                OpView::Install { path: here, expected: hash_of(pc), entry: android->0 },
            )
            &&& action == Action::Conflict ==> pc is Some && android is Some && !is_aside(
                c,
                start,
                policy,
                here,
            )
        }),
{
    let here = c.paths[done];
    let pc = look(start.pc, here);
    let android = look(start.android, here);
    if is_aside(c, start, policy, here) {
        let i = choose|i: int|
            0 <= i < c.paths.len() && splits(c, start, policy, #[trigger] c.paths[i]) && aside(
                start,
                c.paths[i],
            ) == here;
        assert(pc is Some ==> hash_of(pc) == hash_of(look(start.android, c.paths[i])));
        assert(android is Some ==> hash_of(android) == hash_of(look(start.android, c.paths[i])));
    }
    if pc is Some {
        assert(fits_aside(c, start, policy, here, pc->0));
    }
    if android is Some {
        assert(fits_aside(c, start, policy, here, android->0));
    }
}

/// Acting upon the next path is fair.
proof fn lemma_acted_fair(
    c: RoundView,
    start: World,
    policy: Seq<Chars>,
    done: int,
    base: Option<Chars>,
    win: WindowView,
)
    requires
        sound(c, start, policy),
        0 <= done < c.paths.len(),
        base == look(start.state.files, c.paths[done]) || is_aside(
            c,
            start,
            policy,
            c.paths[done],
        ),
        fair_window(c, start, policy, done + 1, win),
        !ignored(policy, c.paths[done], false),
        !forbidden(
            c.mode,
            base,
            c.remap,
            decided(base, look(start.pc, c.paths[done]), look(start.android, c.paths[done]), c.remap),
        ),
    ensures
        ({
            let here = c.paths[done];
            let pc = look(start.pc, here);
            let android = look(start.android, here);
            let action = decided(base, pc, android, c.remap);
            let (u, ops) = acted(win, action, here, pc, android);
            &&& all_fair(c, start, policy, done + 1, ops)
            &&& fair_window(c, start, policy, done + 1, u)
            &&& action == Action::Conflict ==> splits(c, start, policy, here)
        }),
{
    let here = c.paths[done];
    let pc = look(start.pc, here);
    let android = look(start.android, here);
    let action = decided(base, pc, android, c.remap);
    let (u, ops) = acted(win, action, here, pc, android);
    let next = done + 1;
    lemma_own_path_fair(c, start, policy, done, base);
    assert(visited(c, next, here));
    match action {
        Action::Nothing => {
            match pc {
                None => {},
                Some(entry) => {
                    let first = seq![OpView::Acknowledge { path: here, entry }];
                    let batch = acked(win, here, entry).1;
                    let last = seq![OpView::Base { path: here, hash: Some(entry.hash) }];
                    lemma_acked_idle(win, here, entry);
                    lemma_idle_fair(c, start, policy, next, batch);
                    assert(all_fair(c, start, policy, next, first));
                    assert(all_fair(c, start, policy, next, last));
                    lemma_fair_concat(c, start, policy, next, first, batch);
                    lemma_fair_concat(c, start, policy, next, first + batch, last);
                    assert(ops == first + batch + last);
                },
            }
        },
        Action::ToAndroid => {
            let entry = pc->0;
            let full = win.puts.len() == MAX_IN_FLIGHT_FILES || win.put_bytes + entry.size
                > MAX_STAGED_BYTES;
            let (v, drained) = if full {
                puts_drained(win, win.puts)
            } else {
                (win, Seq::empty())
            };
            lemma_puts_fair(c, start, policy, next, win, win.puts);
            let put = OpView::Put {
                path: here,
                expected: hash_of(android),
                entry,
                staged: Staged::Local,
            };
            let head = seq![OpView::Snapshot { path: here, entry }, put];
            assert(all_fair(c, start, policy, next, head));
            lemma_fair_concat(c, start, policy, next, drained, head);
            if entry.size > MAX_STAGED_BYTES {
                let tail = seq![
                    OpView::Accept { path: here },
                    OpView::Base { path: here, hash: Some(entry.hash) },
                    OpView::Acknowledge { path: here, entry },
                ];
                assert(all_fair(c, start, policy, next, tail));
                lemma_fair_concat(c, start, policy, next, drained + head, tail);
                assert(ops == drained + head + tail);
            } else {
                assert(ops == drained + head);
                assert forall|k: int| 0 <= k < u.puts.len() implies visited(
                    c,
                    next,
                    (#[trigger] u.puts[k]).path,
                ) by {
                    if k < v.puts.len() {
                        assert(u.puts[k] == v.puts[k]);
                    }
                }
            }
        },
        Action::ToPc => {
            let entry = android->0;
            let full = win.gets.len() == MAX_IN_FLIGHT_FILES || win.get_bytes + entry.size
                > MAX_STAGED_BYTES;
            let (v, drained) = if full {
                gets_drained(win)
            } else {
                (win, Seq::empty())
            };
            lemma_gets_fair(c, start, policy, next, win);
            let ask = seq![OpView::Get { path: here, entry }];
            assert(all_fair(c, start, policy, next, ask));
            lemma_fair_concat(c, start, policy, next, drained, ask);
            if entry.size > MAX_STAGED_BYTES {
                let put_in = seq![
                    OpView::Receive { path: here, entry },
                    OpView::Install { path: here, expected: hash_of(pc), entry },
                ];
                let batch = acked(v, here, entry).1;
                let last = seq![OpView::Base { path: here, hash: Some(entry.hash) }];
                lemma_acked_idle(v, here, entry);
                lemma_idle_fair(c, start, policy, next, batch);
                assert(all_fair(c, start, policy, next, put_in));
                assert(all_fair(c, start, policy, next, last));
                lemma_fair_concat(c, start, policy, next, drained + ask, put_in);
                lemma_fair_concat(c, start, policy, next, drained + ask + put_in, batch);
                lemma_fair_concat(c, start, policy, next, drained + ask + put_in + batch, last);
                assert(ops == drained + ask + put_in + batch + last);
            } else {
                assert(ops == drained + ask);
                assert forall|k: int| 0 <= k < u.gets.len() implies visited(
                    c,
                    next,
                    (#[trigger] u.gets[k]).path,
                ) && fair(
                    c,
                    start,
                    policy,
                    next,
                    OpView::Install {
                        path: u.gets[k].path,
                        expected: u.gets[k].expected,
                        entry: u.gets[k].entry,
                    },
                ) by {
                    if k < v.gets.len() {
                        assert(u.gets[k] == v.gets[k]);
                    }
                }
            }
        },
        Action::Conflict => {
            assert(base == look(start.state.files, here));
            assert(splits(c, start, policy, here));
            let q = aside(start, here);
            assert(q == conflict_name(here, android->0.hash));
            assert(is_aside(c, start, policy, q));
            assert(fits_aside(c, start, policy, q, android->0)) by {
                assert forall|i: int|
                    0 <= i < c.paths.len() && splits(c, start, policy, #[trigger] c.paths[i])
                        && aside(start, c.paths[i]) == q implies hash_of(
                    look(start.android, c.paths[i]),
                ) == Some(android->0.hash) by {
                    let other = look(start.android, c.paths[i]);
                    assert(start.android.dom().contains(c.paths[i]));
                    assert(start.android.dom().contains(here));
                    lemma_aside_tells_content(
                        c.paths[i],
                        other->0.hash,
                        here,
                        android->0.hash,
                    );
                }
            }
            assert(fits_aside(c, start, policy, here, pc->0));
            assert(c.paths.contains(here));
            assert(hash_of(look(start.pc, q)) is Some ==> hash_of(look(start.pc, q)) == Some(
                android->0.hash,
            ));
            assert(hash_of(look(start.android, q)) is Some ==> hash_of(look(start.android, q))
                == Some(android->0.hash));
            assert(ops.len() == 12);
            assert forall|i: int| 0 <= i < ops.len() implies fair(
                c,
                start,
                policy,
                next,
                #[trigger] ops[i],
            ) by {}
        },
    }
}

proof fn lemma_window_later(
    c: RoundView,
    start: World,
    policy: Seq<Chars>,
    done: int,
    win: WindowView,
)
    requires
        fair_window(c, start, policy, done, win),
    ensures
        fair_window(c, start, policy, done + 1, win),
{
    assert forall|p: Chars| visited(c, done, p) implies #[trigger] visited(c, done + 1, p) by {
        let k = choose|k: int| 0 <= k < done && k < c.paths.len() && #[trigger] c.paths[k] == p;
        assert(c.paths[k] == p);
    }
}

/// One path of a round keeps what holds between paths.
proof fn lemma_step_spares(
    c: RoundView,
    start: World,
    policy: Seq<Chars>,
    r: RoundView,
    t: World,
)
    requires
        sound(c, start, policy),
        sparing(c, start, policy, r.index, r.window, t),
        0 <= r.index < c.paths.len(),
        r.paths == c.paths,
        r.pc == c.pc,
        r.android == c.android,
        r.mode == c.mode,
        r.remap == c.remap,
    ensures
        ({
            let (next, ops) = next_step(r, t.state, policy);
            sparing(c, start, policy, r.index + 1, next.window, apply_all(t, ops))
        }),
{
    let done = r.index;
    let after = done + 1;
    let here = c.paths[done];
    let (next, ops) = next_step(r, t.state, policy);
    let end = apply_all(t, ops);
    lemma_window_later(c, start, policy, done, r.window);
    assert(base_as_was(c, start, policy, after, t));
    if ignored(policy, here, false) {
        assert(ops =~= Seq::<OpView>::empty());
        assert(end == t);
    } else {
        let base = look(t.state.files, here);
        let pc = look(start.pc, here);
        let android = look(start.android, here);
        let action = decided(base, pc, android, c.remap);
        let stop = forbidden(c.mode, base, c.remap, action);
        let (v, drained) = turned(r.window, action, stop);
        lemma_turned_fair(c, start, policy, after, r.window, action, stop);
        let none = Seq::<OpView>::empty();
        let shown = if action != Action::Nothing {
            seq![OpView::Progress { path: here, index: done, total: r.paths.len() as int }]
        } else {
            none
        };
        assert(all_fair(c, start, policy, after, shown));
        lemma_fair_concat(c, start, policy, after, drained, shown);
        if stop {
            let tail = seq![OpView::Mark { path: here }, OpView::Persist];
            assert(all_fair(c, start, policy, after, tail));
            lemma_fair_concat(c, start, policy, after, drained + shown, tail);
            assert(ops == drained + shown + tail);
            lemma_fair_steps(c, start, policy, after, t, ops);
            assert(next.window.puts == v.puts && next.window.gets == v.gets);
            lemma_own_path_fair(c, start, policy, done, base);
            if splits(c, start, policy, here) {
                lemma_split_is_settled(c, start, policy, done, base);
            }
        } else {
            let cleared = if action != Action::Conflict && !begins(here, "Rowd Conflicts/"@) {
                seq![OpView::Clear { path: here }]
            } else {
                none
            };
            assert(all_fair(c, start, policy, after, cleared));
            lemma_fair_concat(c, start, policy, after, drained + shown, cleared);
            let (u, acts) = acted(v, action, here, pc, android);
            lemma_acted_fair(c, start, policy, done, base, v);
            let before = drained + shown + cleared;
            lemma_fair_concat(c, start, policy, after, before, acts);
            let stored = if new_base(base, action, pc, android) != base {
                seq![OpView::Persist]
            } else {
                none
            };
            assert(all_fair(c, start, policy, after, stored));
            lemma_fair_concat(c, start, policy, after, before + acts, stored);
            assert(ops == before + acts + stored);
            lemma_fair_steps(c, start, policy, after, t, ops);
            assert(next.window == u);
            if splits(c, start, policy, here) {
                lemma_split_is_settled(c, start, policy, done, base);
                let w1 = apply_all(t, before);
                lemma_concat(t, before, acts);
                lemma_parted(w1, here, pc->0, android->0, acts, v);
                let w2 = apply_all(w1, acts);
                assert(held_aside(start, w2, here)) by {
                    let q = aside(start, here);
                    assert(look(w2.pc, q) == Some(android->0));
                    if q == here {
                        assert(is_aside(c, start, policy, here));
                        lemma_own_path_fair(c, start, policy, done, base);
                    }
                    assert(look(w2.android, q) == Some(android->0));
                }
                lemma_concat(t, before + acts, stored);
                assert(apply_all(t, before + acts) == w2);
                lemma_stored(w2, stored);
            }
        }
    }
    assert forall|i: int|
        0 <= i < after && i < c.paths.len() && splits(c, start, policy, #[trigger] c.paths[i]) implies held_aside(
        start,
        end,
        c.paths[i],
    ) by {
        if i < done {
            assert(held_aside(start, t, c.paths[i]));
        }
    }
}

proof fn lemma_stored(w: World, stored: Seq<OpView>)
    requires
        stored.len() == 0 || stored == seq![OpView::Persist],
    ensures
        apply_all(w, stored).pc == w.pc,
        apply_all(w, stored).android == w.android,
{
    if stored.len() != 0 {
        lemma_push(w, Seq::empty(), OpView::Persist);
        assert(Seq::<OpView>::empty().push(OpView::Persist) =~= stored);
    }
}

/// A path that splits is dealt with as a conflict when the round comes to it.
proof fn lemma_split_is_settled(
    c: RoundView,
    start: World,
    policy: Seq<Chars>,
    done: int,
    base: Option<Chars>,
)
    requires
        sound(c, start, policy),
        0 <= done < c.paths.len(),
        splits(c, start, policy, c.paths[done]),
        base == look(start.state.files, c.paths[done]) || is_aside(
            c,
            start,
            policy,
            c.paths[done],
        ),
    ensures
        base == look(start.state.files, c.paths[done]),
        decided(base, look(start.pc, c.paths[done]), look(start.android, c.paths[done]), c.remap)
            == Action::Conflict,
        !forbidden(c.mode, base, c.remap, Action::Conflict),
{
    lemma_own_path_fair(c, start, policy, done, look(start.state.files, c.paths[done]));
}

proof fn lemma_run_spares(c: RoundView, start: World, policy: Seq<Chars>, r: RoundView, t: World)
    requires
        sound(c, start, policy),
        sparing(c, start, policy, r.index, r.window, t),
        0 <= r.index <= c.paths.len(),
        r.paths == c.paths,
        r.pc == c.pc,
        r.android == c.android,
        r.mode == c.mode,
        r.remap == c.remap,
    ensures
        kept(c, start, policy, run(r, t, policy)),
        forall|i: int|
            0 <= i < c.paths.len() && splits(c, start, policy, #[trigger] c.paths[i]) ==> held_aside(
                start,
                run(r, t, policy),
                c.paths[i],
            ),
    decreases r.paths.len() - r.index,
{
    if r.index < r.paths.len() {
        lemma_step_spares(c, start, policy, r, t);
        let (next, ops) = next_step(r, t.state, policy);
        lemma_run_spares(c, start, policy, next, apply_all(t, ops));
    } else {
        let done = r.index;
        let (a, x) = puts_drained(r.window, r.window.puts);
        lemma_puts_fair(c, start, policy, done, r.window, r.window.puts);
        let (b, y) = gets_drained(a);
        lemma_gets_fair(c, start, policy, done, a);
        let z = flushed(b).1;
        let last = seq![
            OpView::Progress {
                path: Seq::empty(),
                index: r.paths.len() as int,
                total: r.paths.len() as int,
            },
        ];
        assert(all_fair(c, start, policy, done, z));
        assert(all_fair(c, start, policy, done, last));
        lemma_fair_concat(c, start, policy, done, x, y);
        lemma_fair_concat(c, start, policy, done, x + y, z);
        lemma_fair_concat(c, start, policy, done, x + y + z, last);
        lemma_fair_steps(c, start, policy, done, t, x + y + z + last);
    }
}

/// A round loses no version: whatever a side held at a path is still there, or
/// was the version that both sides had agreed on and the other side has
/// replaced since, or is the phone's version of a conflict and both sides keep
/// it aside. Left out are Shares whose remapping says which side wins, and
/// rounds that would keep a version where other content stands already.
pub proof fn law_versions_survive(r: RoundView, w: World, policy: Seq<Chars>)
    requires
        r.index == 0,
        r.window == empty_window(),
        r.paths.no_duplicates(),
        r.pc == w.pc,
        r.android == w.android,
        r.remap is None || r.remap == Some(RemapPolicy::Compare),
        asides_clear(r, w, policy),
        hashes_sound(w.android),
    ensures
        ({
            let t = run(r, w, policy);
            &&& forall|p: Chars|
                look(w.pc, p) is Some ==> hash_of(#[trigger] look(t.pc, p)) == hash_of(
                    look(w.pc, p),
                ) || look(w.state.files, p) == hash_of(look(w.pc, p))
            &&& forall|p: Chars|
                look(w.android, p) is Some ==> hash_of(#[trigger] look(t.android, p)) == hash_of(
                    look(w.android, p),
                ) || look(w.state.files, p) == hash_of(look(w.android, p)) || held_aside(w, t, p)
        }),
{
    assert(sparing(r, w, policy, 0, r.window, w));
    lemma_run_spares(r, w, policy, r, w);
}

/// In a conflict both sides end with the phone's version aside, wherever the
/// round may touch the path.
pub proof fn law_conflicts_keep_both(r: RoundView, w: World, policy: Seq<Chars>, i: int)
    requires
        r.index == 0,
        r.window == empty_window(),
        r.paths.no_duplicates(),
        r.pc == w.pc,
        r.android == w.android,
        r.remap is None || r.remap == Some(RemapPolicy::Compare),
        asides_clear(r, w, policy),
        hashes_sound(w.android),
        0 <= i < r.paths.len(),
        splits(r, w, policy, r.paths[i]),
    ensures
        held_aside(w, run(r, w, policy), r.paths[i]),
        hash_of(look(run(r, w, policy).pc, r.paths[i])) == hash_of(look(w.pc, r.paths[i])),
{
    assert(sparing(r, w, policy, 0, r.window, w));
    lemma_run_spares(r, w, policy, r, w);
    assert(look(w.pc, r.paths[i]) is Some);
}

/// Steps that leave the files of one side alone.
spec fn spares(pc: bool, ops: Seq<OpView>) -> bool {
    forall|i: int|
        0 <= i < ops.len() ==> if pc {
            !(#[trigger] ops[i] is Install)
        } else {
            !(ops[i] is Put)
        }
}

proof fn lemma_spared(pc: bool, w: World, ops: Seq<OpView>)
    requires
        spares(pc, ops),
    ensures
        pc ==> apply_all(w, ops).pc == w.pc,
        !pc ==> apply_all(w, ops).android == w.android,
    decreases ops.len(),
{
    if ops.len() > 0 {
        let some = ops.drop_last();
        assert(spares(pc, some)) by {
            assert forall|i: int| 0 <= i < some.len() implies if pc {
                !(#[trigger] some[i] is Install)
            } else {
                !(some[i] is Put)
            } by {
                assert(some[i] == ops[i]);
            }
        }
        lemma_spared(pc, w, some);
        assert(ops[ops.len() - 1] == ops.last());
    }
}

proof fn lemma_spares_concat(pc: bool, a: Seq<OpView>, b: Seq<OpView>)
    requires
        spares(pc, a),
        spares(pc, b),
    ensures
        spares(pc, a + b),
{
    assert forall|i: int| 0 <= i < (a + b).len() implies if pc {
        !(#[trigger] (a + b)[i] is Install)
    } else {
        !((a + b)[i] is Put)
    } by {
        if i < a.len() {
            assert((a + b)[i] == a[i]);
        } else {
            assert((a + b)[i] == b[i - a.len()]);
        }
    }
}

proof fn lemma_idle_spares(pc: bool, ops: Seq<OpView>)
    requires
        forall|i: int| 0 <= i < ops.len() ==> idle(#[trigger] ops[i]),
    ensures
        spares(pc, ops),
{
}

/// Confirming sent files writes nothing.
proof fn lemma_puts_spare(pc: bool, v: WindowView, jobs: Seq<JobView>)
    ensures
        spares(pc, puts_drained(v, jobs).1),
        puts_drained(v, jobs).0.puts == Seq::<JobView>::empty(),
        puts_drained(v, jobs).0.gets == v.gets,
    decreases jobs.len(),
{
    if jobs.len() > 0 {
        let some = jobs.drop_last();
        lemma_puts_spare(pc, v, some);
        let j = jobs.last();
        let tail = seq![
            OpView::Accept { path: j.path },
            OpView::Base { path: j.path, hash: Some(j.entry.hash) },
            OpView::Acknowledge { path: j.path, entry: j.entry },
            OpView::Persist,
        ];
        assert(spares(pc, tail));
        lemma_spares_concat(pc, puts_drained(v, some).1, tail);
    }
}

/// Installing fetched files writes to the PC alone.
proof fn lemma_installs_spare(v: WindowView, jobs: Seq<JobView>)
    ensures
        spares(false, gets_installed(v, jobs).1),
        gets_installed(v, jobs).0.gets == Seq::<JobView>::empty(),
        gets_installed(v, jobs).0.puts == v.puts,
    decreases jobs.len(),
{
    if jobs.len() > 0 {
        let some = jobs.drop_last();
        lemma_installs_spare(v, some);
        let j = jobs.last();
        let (u, before) = gets_installed(v, some);
        let put_in = seq![
            OpView::Install { path: j.path, expected: j.expected, entry: j.entry },
        ];
        let batch = acked(u, j.path, j.entry).1;
        lemma_acked_idle(u, j.path, j.entry);
        lemma_idle_spares(false, batch);
        let tail = seq![
            OpView::Base { path: j.path, hash: Some(j.entry.hash) },
            OpView::Persist,
        ];
        assert(spares(false, put_in));
        assert(spares(false, tail));
        lemma_spares_concat(false, before, put_in);
        lemma_spares_concat(false, before + put_in, batch);
        lemma_spares_concat(false, before + put_in + batch, tail);
        assert(gets_installed(v, jobs).1 =~= before + put_in + batch + tail);
    }
}

proof fn lemma_gets_spare(pc: bool, v: WindowView)
    requires
        pc ==> v.gets.len() == 0,
    ensures
        spares(pc, gets_drained(v).1),
        gets_drained(v).0.gets == Seq::<JobView>::empty(),
        gets_drained(v).0.puts == v.puts,
{
    let got = receipts(v.gets);
    assert forall|i: int| 0 <= i < got.len() implies idle(#[trigger] got[i]) by {}
    lemma_idle_spares(pc, got);
    lemma_installs_spare(v, v.gets);
    if pc {
        assert(gets_installed(v, v.gets).1 =~= Seq::<OpView>::empty());
    }
    lemma_spares_concat(pc, got, gets_installed(v, v.gets).1);
}

/// Nothing is on its way to the side that is spared.
spec fn clear_of(pc: bool, win: WindowView) -> bool {
    if pc {
        win.gets.len() == 0
    } else {
        win.puts.len() == 0
    }
}

/// The next path of a round that moves files one way only.
proof fn lemma_one_way_step(pc: bool, r: RoundView, w: World, policy: Seq<Chars>)
    requires
        0 <= r.index < r.paths.len(),
        clear_of(pc, r.window),
        r.remap is None,
        r.mode == if pc {
            SyncMode::ToAndroid
        } else {
            SyncMode::ToPc
        },
    ensures
        spares(pc, next_step(r, w.state, policy).1),
        clear_of(pc, next_step(r, w.state, policy).0.window),
{
    let here = r.paths[r.index];
    let (next, ops) = next_step(r, w.state, policy);
    if !ignored(policy, here, false) {
        let base = look(w.state.files, here);
        let a = look(r.pc, here);
        let b = look(r.android, here);
        let action = decided(base, a, b, r.remap);
        let stop = forbidden(r.mode, base, r.remap, action);
        let none = Seq::<OpView>::empty();
        let (v, first) = if r.window.puts.len() > 0 && (action != Action::ToAndroid || stop) {
            puts_drained(r.window, r.window.puts)
        } else {
            (r.window, none)
        };
        lemma_puts_spare(pc, r.window, r.window.puts);
        assert(spares(pc, first));
        assert(clear_of(pc, v));
        let (u, second) = if v.gets.len() > 0 && (action != Action::ToPc || stop) {
            gets_drained(v)
        } else {
            (v, none)
        };
        lemma_gets_spare(pc, v);
        assert(spares(pc, second));
        assert(clear_of(pc, u));
        lemma_spares_concat(pc, first, second);
        let drained = first + second;
        assert(turned(r.window, action, stop) == (u, drained));
        let shown = if action != Action::Nothing {
            seq![OpView::Progress { path: here, index: r.index, total: r.paths.len() as int }]
        } else {
            none
        };
        assert(spares(pc, shown));
        lemma_spares_concat(pc, drained, shown);
        if stop {
            let tail = seq![OpView::Mark { path: here }, OpView::Persist];
            assert(spares(pc, tail));
            lemma_spares_concat(pc, drained + shown, tail);
            assert(ops == drained + shown + tail);
        } else {
            let cleared = if action != Action::Conflict && !begins(here, "Rowd Conflicts/"@) {
                seq![OpView::Clear { path: here }]
            } else {
                none
            };
            assert(spares(pc, cleared));
            lemma_spares_concat(pc, drained + shown, cleared);
            let before = drained + shown + cleared;
            let (x, acts) = acted(u, action, here, a, b);
            lemma_one_way_acts(pc, u, action, here, a, b);
            lemma_spares_concat(pc, before, acts);
            let stored = if new_base(base, action, a, b) != base {
                seq![OpView::Persist]
            } else {
                none
            };
            assert(spares(pc, stored));
            lemma_spares_concat(pc, before + acts, stored);
            assert(ops == before + acts + stored);
            assert(next.window == x);
        }
    }
}

proof fn lemma_one_way_acts(
    pc: bool,
    u: WindowView,
    action: Action,
    here: Chars,
    a: Option<EntryView>,
    b: Option<EntryView>,
)
    requires
        clear_of(pc, u),
        action == Action::Nothing || action == if pc {
            Action::ToAndroid
        } else {
            Action::ToPc
        },
    ensures
        spares(pc, acted(u, action, here, a, b).1),
        clear_of(pc, acted(u, action, here, a, b).0),
{
    let none = Seq::<OpView>::empty();
    let (x, acts) = acted(u, action, here, a, b);
    if action == Action::Nothing {
        if a is Some {
            let entry = a->0;
            let first = seq![OpView::Acknowledge { path: here, entry }];
            let batch = acked(u, here, entry).1;
            let last = seq![OpView::Base { path: here, hash: Some(entry.hash) }];
            lemma_acked_idle(u, here, entry);
            lemma_idle_spares(pc, batch);
            assert(spares(pc, first));
            assert(spares(pc, last));
            lemma_spares_concat(pc, first, batch);
            lemma_spares_concat(pc, first + batch, last);
            assert(acts == first + batch + last);
        }
    } else if pc {
        let entry = a->0;
        let full = u.puts.len() == MAX_IN_FLIGHT_FILES || u.put_bytes + entry.size
            > MAX_STAGED_BYTES;
        let drained = if full {
            puts_drained(u, u.puts).1
        } else {
            none
        };
        lemma_puts_spare(pc, u, u.puts);
        let head = seq![
            OpView::Snapshot { path: here, entry },
            OpView::Put { path: here, expected: hash_of(b), entry, staged: Staged::Local },
        ];
        assert(spares(pc, head));
        lemma_spares_concat(pc, drained, head);
        if entry.size > MAX_STAGED_BYTES {
            let tail = seq![
                OpView::Accept { path: here },
                OpView::Base { path: here, hash: Some(entry.hash) },
                OpView::Acknowledge { path: here, entry },
            ];
            assert(spares(pc, tail));
            lemma_spares_concat(pc, drained + head, tail);
            assert(acts == drained + head + tail);
        } else {
            assert(acts == drained + head);
        }
    } else {
        let entry = b->0;
        let full = u.gets.len() == MAX_IN_FLIGHT_FILES || u.get_bytes + entry.size
            > MAX_STAGED_BYTES;
        let (v, drained) = if full {
            gets_drained(u)
        } else {
            (u, none)
        };
        lemma_gets_spare(pc, u);
        let ask = seq![OpView::Get { path: here, entry }];
        assert(spares(pc, ask));
        lemma_spares_concat(pc, drained, ask);
        if entry.size > MAX_STAGED_BYTES {
            let put_in = seq![
                OpView::Receive { path: here, entry },
                OpView::Install { path: here, expected: hash_of(a), entry },
            ];
            let batch = acked(v, here, entry).1;
            let last = seq![OpView::Base { path: here, hash: Some(entry.hash) }];
            lemma_acked_idle(v, here, entry);
            lemma_idle_spares(pc, batch);
            assert(spares(pc, put_in));
            assert(spares(pc, last));
            lemma_spares_concat(pc, drained + ask, put_in);
            lemma_spares_concat(pc, drained + ask + put_in, batch);
            lemma_spares_concat(pc, drained + ask + put_in + batch, last);
            assert(acts == drained + ask + put_in + batch + last);
        } else {
            assert(acts == drained + ask);
        }
    }
}

proof fn lemma_one_way_run(pc: bool, r: RoundView, w: World, policy: Seq<Chars>)
    requires
        clear_of(pc, r.window),
        0 <= r.index <= r.paths.len(),
        r.remap is None,
        r.mode == if pc {
            SyncMode::ToAndroid
        } else {
            SyncMode::ToPc
        },
    ensures
        pc ==> run(r, w, policy).pc == w.pc,
        !pc ==> run(r, w, policy).android == w.android,
    decreases r.paths.len() - r.index,
{
    if r.index < r.paths.len() {
        lemma_one_way_step(pc, r, w, policy);
        let (next, ops) = next_step(r, w.state, policy);
        lemma_spared(pc, w, ops);
        lemma_one_way_run(pc, next, apply_all(w, ops), policy);
    } else {
        let (a, x) = puts_drained(r.window, r.window.puts);
        lemma_puts_spare(pc, r.window, r.window.puts);
        let (b, y) = gets_drained(a);
        lemma_gets_spare(pc, a);
        let z = flushed(b).1;
        let last = seq![
            OpView::Progress {
                path: Seq::empty(),
                index: r.paths.len() as int,
                total: r.paths.len() as int,
            },
        ];
        assert(spares(pc, z));
        assert(spares(pc, last));
        lemma_spares_concat(pc, x, y);
        lemma_spares_concat(pc, x + y, z);
        lemma_spares_concat(pc, x + y + z, last);
        lemma_spared(pc, w, x + y + z + last);
    }
}

/// A Share that moves files to the phone never changes a file of the PC.
pub proof fn law_to_android_spares_the_pc(r: RoundView, w: World, policy: Seq<Chars>)
    requires
        r.index == 0,
        r.window == empty_window(),
        r.remap is None,
        r.mode == SyncMode::ToAndroid,
    ensures
        run(r, w, policy).pc == w.pc,
{
    lemma_one_way_run(true, r, w, policy);
}

/// A Share that moves files to the PC never changes a file of the phone.
pub proof fn law_to_pc_spares_the_phone(r: RoundView, w: World, policy: Seq<Chars>)
    requires
        r.index == 0,
        r.window == empty_window(),
        r.remap is None,
        r.mode == SyncMode::ToPc,
    ensures
        run(r, w, policy).android == w.android,
{
    lemma_one_way_run(false, r, w, policy);
}

/// Steps that change nothing in a world where this much is agreed on.
spec fn still(files: Map<Chars, Chars>, ops: Seq<OpView>) -> bool {
    forall|i: int|
        0 <= i < ops.len() ==> idle(#[trigger] ops[i]) || (ops[i] matches OpView::Base {
            path,
            hash,
        } && look(files, path) == hash)
}

proof fn lemma_still(w: World, ops: Seq<OpView>)
    requires
        still(w.state.files, ops),
    ensures
        apply_all(w, ops).pc == w.pc,
        apply_all(w, ops).android == w.android,
        apply_all(w, ops).state.files == w.state.files,
    decreases ops.len(),
{
    if ops.len() > 0 {
        let some = ops.drop_last();
        assert(still(w.state.files, some)) by {
            assert forall|i: int| 0 <= i < some.len() implies idle(#[trigger] some[i]) || (
            some[i] matches OpView::Base { path, hash } && look(w.state.files, path) == hash) by {
                assert(some[i] == ops[i]);
            }
        }
        lemma_still(w, some);
        let t = apply_all(w, some);
        let op = ops[ops.len() - 1];
        if let OpView::Base { path, hash } = op {
            match hash {
                Some(h) => {
                    assert(t.state.files.insert(path, h) =~= t.state.files);
                },
                None => {
                    assert(t.state.files.remove(path) =~= t.state.files);
                },
            }
        }
    }
}

/// A round between sides that agree already, as after a round that was played
/// to its end, moves no file and leaves what was agreed on as it is.
pub proof fn law_replay_changes_nothing(r: RoundView, w: World, policy: Seq<Chars>)
    requires
        r.index >= 0,
        r.window.puts.len() == 0,
        r.window.gets.len() == 0,
        r.pc == w.pc,
        r.android == w.android,
        forall|i: int|
            0 <= i < r.paths.len() ==> settled_at(w, #[trigger] r.paths[i]),
    ensures
        run(r, w, policy).pc == w.pc,
        run(r, w, policy).android == w.android,
        run(r, w, policy).state.files == w.state.files,
    decreases r.paths.len() - r.index,
{
    let none = Seq::<OpView>::empty();
    if r.index < r.paths.len() {
        let here = r.paths[r.index];
        let (next, ops) = next_step(r, w.state, policy);
        let base = look(w.state.files, here);
        let a = look(r.pc, here);
        let b = look(r.android, here);
        assert(settled_at(w, r.paths[r.index]));
        if !ignored(policy, here, false) {
            assert(decided(base, a, b, r.remap) == Action::Nothing);
            assert(turned(r.window, Action::Nothing, false).1 =~= none);
            assert(turned(r.window, Action::Nothing, false).0 == r.window);
            let cleared = if !begins(here, "Rowd Conflicts/"@) {
                seq![OpView::Clear { path: here }]
            } else {
                none
            };
            let (u, acts) = agreed(r.window, here, a);
            if a is Some {
                lemma_acked_idle(r.window, here, a->0);
            }
            assert(still(w.state.files, acts));
            assert(ops =~= cleared + acts);
            assert(still(w.state.files, ops)) by {
                assert forall|i: int| 0 <= i < ops.len() implies idle(#[trigger] ops[i]) || (
                ops[i] matches OpView::Base { path, hash } && look(w.state.files, path)
                    == hash) by {
                    if i >= cleared.len() {
                        assert(ops[i] == acts[i - cleared.len()]);
                    }
                }
            }
            assert(next.window.puts.len() == 0 && next.window.gets.len() == 0);
        } else {
            assert(ops =~= none);
        }
        lemma_still(w, ops);
        let t = apply_all(w, ops);
        assert forall|i: int| 0 <= i < r.paths.len() implies settled_at(
            t,
            #[trigger] r.paths[i],
        ) by {
            assert(settled_at(w, r.paths[i]));
        }
        law_replay_changes_nothing(next, t, policy);
    } else {
        let (a, x) = puts_drained(r.window, r.window.puts);
        assert(x =~= none);
        let (b, y) = gets_drained(a);
        assert(receipts(a.gets) =~= none);
        assert(y =~= none);
        let ops = last_steps(r).1;
        assert(still(w.state.files, ops));
        lemma_still(w, ops);
    }
}

/// What the policy leaves alone, a round does not touch: no step is about it.
pub proof fn law_ignored_paths_stay(r: RoundView, w: World, policy: Seq<Chars>)
    requires
        0 <= r.index < r.paths.len(),
        ignored(policy, r.paths[r.index], false),
    ensures
        next_step(r, w.state, policy).1 == Seq::<OpView>::empty(),
        next_step(r, w.state, policy).0.window == r.window,
{
}

} // verus!
