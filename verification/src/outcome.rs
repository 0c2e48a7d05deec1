//! What a round leaves at each path, said with the files that both sides held,
//! what they had agreed on, and the mode of the Share.

use crate::config::{RemapPolicy, SyncMode};
use crate::convergence::{
    apply, apply_all, aside_fits, due_paths, law_round_converges, law_round_is_its_steps,
    lemma_concat, lemma_push, named, run, settled_at, steps, World,
};
use crate::ignore::ignored;
use crate::journal::look;
use crate::model::{conflict_name, Action, EntryView};
use crate::preservation::{
    asides_clear, hashes_sound, held_aside, law_conflicts_keep_both, law_to_android_spares_the_pc,
    law_to_pc_spares_the_phone,
};
use crate::storage::hash_of;
use crate::sync::{
    acked, acted, agreed, decided, empty_window, fetched, flushed, forbidden, gets_drained,
    gets_installed, new_base, next_step, parted, puts_drained, receipts,
    sent, turned, JobView, OpView, RoundView, Staged, WindowView, MAX_IN_FLIGHT_FILES,
    MAX_STAGED_BYTES,
};
use crate::text::{begins, Chars};
use vstd::prelude::*;

verus! {

/// The phone's version of some path of the round would be kept at this one.
pub open spec fn keeps_aside(r: RoundView, p: Chars) -> bool {
    exists|i: int|
        0 <= i < r.paths.len() && look(r.android, #[trigger] r.paths[i]) is Some && conflict_name(
            r.paths[i],
            look(r.android, r.paths[i])->0.hash,
        ) == p
}

/// One path of a round that began with these files.
struct Case {
    c: RoundView,
    start: World,
    policy: Seq<Chars>,
    i: int,
}

impl Case {
    spec fn p(self) -> Chars {
        self.c.paths[self.i]
    }

    spec fn base(self) -> Option<Chars> {
        look(self.start.state.files, self.p())
    }

    spec fn pc(self) -> Option<EntryView> {
        look(self.start.pc, self.p())
    }

    spec fn android(self) -> Option<EntryView> {
        look(self.start.android, self.p())
    }

    spec fn act(self) -> Action {
        decided(self.base(), self.pc(), self.android(), self.c.remap)
    }

    spec fn barred(self) -> bool {
        forbidden(self.c.mode, self.base(), self.c.remap, self.act())
    }

    spec fn moves(self) -> bool {
        !ignored(self.policy, self.p(), false) && !self.barred()
    }

    spec fn stops(self) -> bool {
        !ignored(self.policy, self.p(), false) && self.barred()
    }

    spec fn to_phone(self) -> bool {
        self.act() == Action::ToAndroid || self.act() == Action::Conflict
    }

    spec fn clears(self) -> bool {
        self.moves() && self.act() != Action::Conflict && !begins(self.p(), "Rowd Conflicts/"@)
    }

    spec fn goal(self) -> Option<Chars> {
        if self.act() == Action::ToPc {
            hash_of(self.android())
        } else {
            hash_of(self.pc())
        }
    }

    spec fn aside(self) -> Chars {
        conflict_name(self.p(), self.android()->0.hash)
    }

    /// The version that the phone is told of.
    spec fn told(self) -> Option<EntryView> {
        match self.act() {
            Action::ToPc => self.android(),
            Action::Nothing => self.pc(),
            _ => None,
        }
    }

    spec fn sound(self) -> bool {
        &&& 0 <= self.i < self.c.paths.len()
        &&& self.c.pc == self.start.pc
        &&& self.c.android == self.start.android
        &&& !keeps_aside(self.c, self.p())
    }
}

/// A step does to the path only what its case asks for.
spec fn apt(k: Case, seen: bool, op: OpView) -> bool {
    match op {
        OpView::Put { path, expected, entry, staged } => path == k.p() ==> seen && k.moves()
            && k.to_phone() && k.pc() == Some(entry) && expected == hash_of(k.android()),
        OpView::Install { path, expected, entry } => path == k.p() ==> seen && k.moves() && k.act()
            == Action::ToPc && k.android() == Some(entry) && expected == hash_of(k.pc()),
        OpView::Acknowledge { path, entry } => path == k.p() ==> seen && k.moves() && k.act()
            != Action::ToPc && k.pc() == Some(entry),
        OpView::SendAcks { entries } => entries.dom().contains(k.p()) ==> seen && k.moves()
            && k.told() == Some(entries[k.p()]),
        OpView::Base { path, hash } => path == k.p() ==> seen && k.moves() && hash == k.goal(),
        OpView::Mark { path } => path == k.p() ==> seen && k.stops(),
        OpView::Clear { path } => !begins(path, "Rowd Conflicts/"@) && (path == k.p() ==> seen
            && k.clears()),
        _ => true,
    }
}

spec fn all_apt(k: Case, seen: bool, ops: Seq<OpView>) -> bool {
    forall|n: int| 0 <= n < ops.len() ==> apt(k, seen, #[trigger] ops[n])
}

spec fn is_base(op: OpView, p: Chars) -> bool {
    op matches OpView::Base { path, hash } && path == p
}

spec fn is_put(op: OpView, p: Chars) -> bool {
    op matches OpView::Put { path, expected, entry, staged } && path == p
}

spec fn is_install(op: OpView, p: Chars) -> bool {
    op matches OpView::Install { path, expected, entry } && path == p
}

spec fn has_base(ops: Seq<OpView>, p: Chars) -> bool {
    exists|n: int| 0 <= n < ops.len() && is_base(#[trigger] ops[n], p)
}

spec fn has_put(ops: Seq<OpView>, p: Chars) -> bool {
    exists|n: int| 0 <= n < ops.len() && is_put(#[trigger] ops[n], p)
}

spec fn has_install(ops: Seq<OpView>, p: Chars) -> bool {
    exists|n: int| 0 <= n < ops.len() && is_install(#[trigger] ops[n], p)
}

spec fn is_own(op: OpView, p: Chars) -> bool {
    op matches OpView::Acknowledge { path, entry } && path == p
}

spec fn is_ack(op: OpView, p: Chars) -> bool {
    op matches OpView::SendAcks { entries } && entries.dom().contains(p)
}

spec fn has_own(ops: Seq<OpView>, p: Chars) -> bool {
    exists|n: int| 0 <= n < ops.len() && is_own(#[trigger] ops[n], p)
}

spec fn has_ack(ops: Seq<OpView>, p: Chars) -> bool {
    exists|n: int| 0 <= n < ops.len() && is_ack(#[trigger] ops[n], p)
}

spec fn has_mark(ops: Seq<OpView>, p: Chars) -> bool {
    exists|n: int| 0 <= n < ops.len() && #[trigger] ops[n] == (OpView::Mark { path: p })
}

spec fn has_clear(ops: Seq<OpView>, p: Chars) -> bool {
    exists|n: int| 0 <= n < ops.len() && #[trigger] ops[n] == (OpView::Clear { path: p })
}

/// The path is as it was, or as its case leaves it.
spec fn held(k: Case, seen: bool, t: World) -> bool {
    let p = k.p();
    let noted = t.state.conflicts.contains(p);
    &&& look(t.pc, p) == k.pc() || (seen && k.moves() && k.act() == Action::ToPc && look(t.pc, p)
        == k.android())
    &&& look(t.android, p) == k.android() || (seen && k.moves() && k.to_phone() && look(
        t.android,
        p,
    ) == k.pc())
    &&& look(t.state.files, p) == k.base() || (seen && k.moves() && look(t.state.files, p)
        == k.goal())
    &&& noted == k.start.state.conflicts.contains(p) || (seen && k.stops() && noted) || (seen
        && k.clears() && !noted)
}

proof fn lemma_steps(k: Case, seen: bool, t: World, ops: Seq<OpView>)
    requires
        held(k, seen, t),
        all_apt(k, seen, ops),
    ensures
        ({
            let u = apply_all(t, ops);
            let p = k.p();
            &&& held(k, seen, u)
            &&& k.moves() && (look(t.state.files, p) == k.goal() || has_base(ops, p)) ==> look(
                u.state.files,
                p,
            ) == k.goal()
            &&& k.moves() && k.to_phone() && (look(t.android, p) == k.pc() || has_put(ops, p))
                ==> look(u.android, p) == k.pc()
            &&& k.moves() && k.act() == Action::ToPc && (look(t.pc, p) == k.android()
                || has_install(ops, p)) ==> look(u.pc, p) == k.android()
            &&& k.stops() && (t.state.conflicts.contains(p) || has_mark(ops, p))
                ==> u.state.conflicts.contains(p)
            &&& k.clears() && (!t.state.conflicts.contains(p) || has_clear(ops, p))
                ==> !u.state.conflicts.contains(p)
        }),
    decreases ops.len(),
{
    if ops.len() > 0 {
        let less = ops.drop_last();
        let n = ops.len() - 1;
        assert forall|m: int| 0 <= m < less.len() implies apt(k, seen, #[trigger] less[m]) by {
            assert(less[m] == ops[m]);
        }
        lemma_steps(k, seen, t, less);
        let s = apply_all(t, less);
        let op = ops[n];
        assert(op == ops.last());
        assert(apt(k, seen, op));
        let p = k.p();
        assert(has_base(ops, p) ==> has_base(less, p) || is_base(op, p)) by {
            if has_base(ops, p) {
                let m = choose|m: int| 0 <= m < ops.len() && is_base(#[trigger] ops[m], p);
                if m < n {
                    assert(is_base(less[m], p));
                }
            }
        }
        assert(has_put(ops, p) ==> has_put(less, p) || is_put(op, p)) by {
            if has_put(ops, p) {
                let m = choose|m: int| 0 <= m < ops.len() && is_put(#[trigger] ops[m], p);
                if m < n {
                    assert(is_put(less[m], p));
                }
            }
        }
        assert(has_install(ops, p) ==> has_install(less, p) || is_install(op, p)) by {
            if has_install(ops, p) {
                let m = choose|m: int| 0 <= m < ops.len() && is_install(#[trigger] ops[m], p);
                if m < n {
                    assert(is_install(less[m], p));
                }
            }
        }
        assert(has_mark(ops, p) ==> has_mark(less, p) || op == (OpView::Mark { path: p })) by {
            if has_mark(ops, p) {
                let m = choose|m: int|
                    0 <= m < ops.len() && #[trigger] ops[m] == (OpView::Mark { path: p });
                if m < n {
                    assert(less[m] == ops[m]);
                }
            }
        }
        assert(has_clear(ops, p) ==> has_clear(less, p) || op == (OpView::Clear { path: p })) by {
            if has_clear(ops, p) {
                let m = choose|m: int|
                    0 <= m < ops.len() && #[trigger] ops[m] == (OpView::Clear { path: p });
                if m < n {
                    assert(less[m] == ops[m]);
                }
            }
        }
        let u = apply(s, op);
        assert(u == apply_all(t, ops));
        assert(look(u.pc, p) == look(s.pc, p) || is_install(op, p));
        assert(look(u.android, p) == look(s.android, p) || is_put(op, p));
        assert(look(u.state.files, p) == look(s.state.files, p) || is_base(op, p));
    } else {
        assert(apply_all(t, ops) == t);
    }
}

/// The files on their way are those that their case asks for.
spec fn jobs(k: Case, seen: bool, win: WindowView) -> bool {
    &&& forall|n: int|
        0 <= n < win.puts.len() && (#[trigger] win.puts[n]).path == k.p() ==> seen && k.moves()
            && k.act() == Action::ToAndroid && k.pc() == Some(win.puts[n].entry)
    &&& forall|n: int|
        0 <= n < win.gets.len() && (#[trigger] win.gets[n]).path == k.p() ==> seen && k.moves()
            && k.act() == Action::ToPc && k.android() == Some(win.gets[n].entry)
            && win.gets[n].expected == hash_of(k.pc())
    &&& win.acks.dom().contains(k.p()) ==> seen && k.moves() && k.told() == Some(win.acks[k.p()])
    &&& win.acks.dom().finite()
}

/// A version is agreed on only once it is where it was to go.
spec fn led(k: Case, sent: bool, ops: Seq<OpView>) -> bool {
    forall|n: int|
        0 <= n < ops.len() && is_base(#[trigger] ops[n], k.p()) ==> (k.to_phone() ==> sent
            || has_put(ops.take(n), k.p())) && (k.act() == Action::ToPc ==> has_install(
            ops.take(n),
            k.p(),
        ))
}

/// Steps that lead from one window to another do what each case asks for, and
/// what leaves the window is done.
spec fn flow(k: Case, seen: bool, win: WindowView, v: WindowView, ops: Seq<OpView>) -> bool {
    let p = k.p();
    &&& all_apt(k, seen, ops)
    &&& jobs(k, seen, v)
    &&& led(k, named(win.puts, p), ops)
    &&& named(v.puts, p) ==> named(win.puts, p) || has_put(ops, p)
    &&& named(win.puts, p) ==> (has_base(ops, p) && has_own(ops, p)) || named(v.puts, p)
    &&& named(win.gets, p) ==> (has_base(ops, p) && has_install(ops, p) && (has_ack(ops, p)
        || v.acks.dom().contains(p))) || named(v.gets, p)
    &&& win.acks.dom().contains(p) ==> has_ack(ops, p) || v.acks.dom().contains(p)
}

proof fn lemma_has_concat(a: Seq<OpView>, b: Seq<OpView>, p: Chars)
    ensures
        has_base(a, p) || has_base(b, p) ==> has_base(a + b, p),
        has_put(a, p) || has_put(b, p) ==> has_put(a + b, p),
        has_install(a, p) || has_install(b, p) ==> has_install(a + b, p),
        has_own(a, p) || has_own(b, p) ==> has_own(a + b, p),
        has_ack(a, p) || has_ack(b, p) ==> has_ack(a + b, p),
        has_mark(a, p) || has_mark(b, p) ==> has_mark(a + b, p),
        has_clear(a, p) || has_clear(b, p) ==> has_clear(a + b, p),
{
    assert forall|n: int| 0 <= n < a.len() implies #[trigger] a[n] == (a + b)[n] by {}
    assert forall|n: int| 0 <= n < b.len() implies #[trigger] b[n] == (a + b)[n + a.len()] by {}
    if has_base(a, p) {
        let m = choose|m: int| 0 <= m < a.len() && is_base(#[trigger] a[m], p);
        assert(is_base((a + b)[m], p));
    }
    if has_base(b, p) {
        let m = choose|m: int| 0 <= m < b.len() && is_base(#[trigger] b[m], p);
        assert(is_base((a + b)[m + a.len()], p));
    }
    if has_put(a, p) {
        let m = choose|m: int| 0 <= m < a.len() && is_put(#[trigger] a[m], p);
        assert(is_put((a + b)[m], p));
    }
    if has_put(b, p) {
        let m = choose|m: int| 0 <= m < b.len() && is_put(#[trigger] b[m], p);
        assert(is_put((a + b)[m + a.len()], p));
    }
    if has_install(a, p) {
        let m = choose|m: int| 0 <= m < a.len() && is_install(#[trigger] a[m], p);
        assert(is_install((a + b)[m], p));
    }
    if has_install(b, p) {
        let m = choose|m: int| 0 <= m < b.len() && is_install(#[trigger] b[m], p);
        assert(is_install((a + b)[m + a.len()], p));
    }
    if has_own(a, p) {
        let m = choose|m: int| 0 <= m < a.len() && is_own(#[trigger] a[m], p);
        assert(is_own((a + b)[m], p));
    }
    if has_own(b, p) {
        let m = choose|m: int| 0 <= m < b.len() && is_own(#[trigger] b[m], p);
        assert(is_own((a + b)[m + a.len()], p));
    }
    if has_ack(a, p) {
        let m = choose|m: int| 0 <= m < a.len() && is_ack(#[trigger] a[m], p);
        assert(is_ack((a + b)[m], p));
    }
    if has_ack(b, p) {
        let m = choose|m: int| 0 <= m < b.len() && is_ack(#[trigger] b[m], p);
        assert(is_ack((a + b)[m + a.len()], p));
    }
    if has_mark(a, p) {
        let m = choose|m: int| 0 <= m < a.len() && #[trigger] a[m] == (OpView::Mark { path: p });
        assert((a + b)[m] == (OpView::Mark { path: p }));
    }
    if has_mark(b, p) {
        let m = choose|m: int| 0 <= m < b.len() && #[trigger] b[m] == (OpView::Mark { path: p });
        assert((a + b)[m + a.len()] == (OpView::Mark { path: p }));
    }
    if has_clear(a, p) {
        let m = choose|m: int| 0 <= m < a.len() && #[trigger] a[m] == (OpView::Clear { path: p });
        assert((a + b)[m] == (OpView::Clear { path: p }));
    }
    if has_clear(b, p) {
        let m = choose|m: int| 0 <= m < b.len() && #[trigger] b[m] == (OpView::Clear { path: p });
        assert((a + b)[m + a.len()] == (OpView::Clear { path: p }));
    }
}

proof fn lemma_flow_concat(
    k: Case,
    seen: bool,
    win: WindowView,
    v: WindowView,
    u: WindowView,
    a: Seq<OpView>,
    b: Seq<OpView>,
)
    requires
        flow(k, seen, win, v, a),
        flow(k, seen, v, u, b),
    ensures
        flow(k, seen, win, u, a + b),
{
    lemma_has_concat(a, b, k.p());
    assert forall|n: int| 0 <= n < (a + b).len() implies apt(k, seen, #[trigger] (a + b)[n]) by {
        if n < a.len() {
            assert((a + b)[n] == a[n]);
        } else {
            assert((a + b)[n] == b[n - a.len()]);
        }
    }
    let p = k.p();
    assert forall|n: int| 0 <= n < (a + b).len() && is_base(#[trigger] (a + b)[n], p) implies (
    k.to_phone() ==> named(win.puts, p) || has_put((a + b).take(n), p)) && (k.act() == Action::ToPc
        ==> has_install((a + b).take(n), p)) by {
        if n < a.len() {
            assert((a + b)[n] == a[n]);
            assert((a + b).take(n) =~= a.take(n));
        } else {
            let m = n - a.len();
            assert((a + b)[n] == b[m]);
            assert((a + b).take(n) =~= a + b.take(m));
            lemma_has_concat(a, b.take(m), p);
        }
    }
}

/// Steps that touch neither the path nor the window.
proof fn lemma_flow_quiet(
    k: Case,
    seen: bool,
    win: WindowView,
    v: WindowView,
    u: WindowView,
    a: Seq<OpView>,
    b: Seq<OpView>,
)
    requires
        flow(k, seen, win, v, a),
        all_apt(k, seen, b),
        led(k, named(v.puts, k.p()), b),
        u.puts == v.puts,
        u.gets == v.gets,
        u.acks == v.acks,
    ensures
        flow(k, seen, win, u, a + b),
{
    lemma_flow_concat(k, seen, win, v, u, a, b);
}

proof fn lemma_puts_flow(k: Case, seen: bool, win: WindowView, some: Seq<JobView>)
    requires
        jobs(k, seen, win),
        some.len() <= win.puts.len(),
        some == win.puts.take(some.len() as int),
    ensures
        all_apt(k, seen, puts_drained(win, some).1),
        led(k, named(win.puts, k.p()), puts_drained(win, some).1),
        named(some, k.p()) ==> has_base(puts_drained(win, some).1, k.p()) && has_own(
            puts_drained(win, some).1,
            k.p(),
        ),
        puts_drained(win, some).0.puts.len() == 0,
        puts_drained(win, some).0.gets == win.gets,
        puts_drained(win, some).0.acks == win.acks,
    decreases some.len(),
{
    if some.len() > 0 {
        let less = some.drop_last();
        let n = some.len() - 1;
        assert(less =~= win.puts.take(less.len() as int));
        lemma_puts_flow(k, seen, win, less);
        let j = some.last();
        assert(win.puts[n] == j);
        let before = puts_drained(win, less).1;
        let tail = seq![
            OpView::Accept { path: j.path },
            OpView::Base { path: j.path, hash: Some(j.entry.hash) },
            OpView::Acknowledge { path: j.path, entry: j.entry },
            OpView::Persist,
        ];
        let ops = puts_drained(win, some).1;
        assert(ops == before + tail);
        assert forall|m: int| 0 <= m < ops.len() implies apt(k, seen, #[trigger] ops[m]) by {
            if m < before.len() {
                assert(ops[m] == before[m]);
            } else {
                assert(ops[m] == tail[m - before.len()]);
            }
        }
        assert forall|m: int| 0 <= m < ops.len() && is_base(#[trigger] ops[m], k.p()) implies (
        k.to_phone() ==> named(win.puts, k.p()) || has_put(ops.take(m), k.p())) && (k.act()
            == Action::ToPc ==> has_install(ops.take(m), k.p())) by {
            if m < before.len() {
                assert(ops[m] == before[m]);
                assert(ops.take(m) =~= before.take(m));
            } else {
                assert(ops[m] == tail[m - before.len()]);
                assert(win.puts[n].path == k.p());
            }
        }
        lemma_has_concat(before, tail, k.p());
        if named(some, k.p()) {
            let m = choose|m: int| 0 <= m < some.len() && (#[trigger] some[m]).path == k.p();
            if m < n {
                assert(less[m].path == k.p());
            } else {
                assert(is_base(tail[1], k.p()));
                assert(is_own(tail[2], k.p()));
            }
        }
    }
}

proof fn lemma_drain_puts_flow(k: Case, seen: bool, win: WindowView)
    requires
        jobs(k, seen, win),
    ensures
        flow(k, seen, win, puts_drained(win, win.puts).0, puts_drained(win, win.puts).1),
        puts_drained(win, win.puts).0.puts.len() == 0,
        puts_drained(win, win.puts).0.gets == win.gets,
        puts_drained(win, win.puts).0.acks == win.acks,
{
    assert(win.puts =~= win.puts.take(win.puts.len() as int));
    lemma_puts_flow(k, seen, win, win.puts);
}

/// Adding a confirmation keeps those that wait.
proof fn lemma_acked_flow(k: Case, seen: bool, w: WindowView, path: Chars, entry: EntryView)
    requires
        jobs(k, seen, w),
        path == k.p() ==> seen && k.moves() && k.told() == Some(entry),
    ensures
        ({
            let (v, ops) = acked(w, path, entry);
            &&& flow(k, seen, w, v, ops)
            &&& v.puts == w.puts
            &&& v.gets == w.gets
            &&& path == k.p() ==> has_ack(ops, path) || v.acks.dom().contains(path)
        }),
{
    let all = w.acks.insert(path, entry);
    let (v, ops) = acked(w, path, entry);
    if ops.len() > 0 {
        assert(ops[0] == (OpView::SendAcks { entries: all }));
        assert(all.dom().contains(k.p()) ==> is_ack(ops[0], k.p()));
    }
    assert(v.acks == all || v.acks =~= Map::<Chars, EntryView>::empty());
}

proof fn lemma_installs_flow(k: Case, seen: bool, win: WindowView, some: Seq<JobView>)
    requires
        jobs(k, seen, win),
        some.len() <= win.gets.len(),
        some == win.gets.take(some.len() as int),
    ensures
        ({
            let (v, ops) = gets_installed(win, some);
            &&& v.gets.len() == 0
            &&& v.puts == win.puts
            &&& flow(k, seen, WindowView { gets: some, ..win }, v, ops)
        }),
    decreases some.len(),
{
    let whole = WindowView { gets: some, ..win };
    if some.len() > 0 {
        let less = some.drop_last();
        let n = some.len() - 1;
        assert(less =~= win.gets.take(less.len() as int));
        lemma_installs_flow(k, seen, win, less);
        let j = some.last();
        assert(win.gets[n] == j);
        let (v, before) = gets_installed(win, less);
        let part = WindowView { gets: less, ..win };
        let first = seq![
            OpView::Install { path: j.path, expected: j.expected, entry: j.entry },
        ];
        let last = seq![
            OpView::Base { path: j.path, hash: Some(j.entry.hash) },
            OpView::Persist,
        ];
        let (s, batch) = acked(v, j.path, j.entry);
        lemma_acked_flow(k, seen, v, j.path, j.entry);
        lemma_flow_quiet(k, seen, part, v, v, before, first);
        lemma_flow_concat(k, seen, part, v, s, before + first, batch);
        let (u, ops) = gets_installed(win, some);
        assert(ops == before + first + batch + last);
        let most = before + first + batch;
        lemma_has_concat(before, first, k.p());
        lemma_has_concat(before + first, batch, k.p());
        lemma_has_concat(most, last, k.p());
        if j.path == k.p() {
            assert(is_base(last[0], k.p()));
            assert(is_install(first[0], k.p()));
        }
        assert forall|m: int| 0 <= m < ops.len() implies apt(k, seen, #[trigger] ops[m]) by {
            if m < most.len() {
                assert(ops[m] == most[m]);
            } else {
                assert(ops[m] == last[m - most.len()]);
            }
        }
        assert forall|m: int| 0 <= m < ops.len() && is_base(#[trigger] ops[m], k.p()) implies (
        k.to_phone() ==> named(win.puts, k.p()) || has_put(ops.take(m), k.p())) && (k.act()
            == Action::ToPc ==> has_install(ops.take(m), k.p())) by {
            if m < most.len() {
                assert(ops[m] == most[m]);
                assert(ops.take(m) =~= most.take(m));
            } else {
                assert(ops[m] == last[m - most.len()]);
                assert(ops.take(m) =~= most);
            }
        }
        if named(some, k.p()) {
            let m = choose|m: int| 0 <= m < some.len() && (#[trigger] some[m]).path == k.p();
            if m < n {
                assert(less[m].path == k.p());
                assert(named(less, k.p()));
            }
        }
        assert(flow(k, seen, whole, u, ops));
    }
}

proof fn lemma_drain_gets_flow(k: Case, seen: bool, win: WindowView)
    requires
        jobs(k, seen, win),
    ensures
        flow(k, seen, win, gets_drained(win).0, gets_drained(win).1),
        gets_drained(win).0.gets.len() == 0,
        gets_drained(win).0.puts == win.puts,
{
    assert(win.gets =~= win.gets.take(win.gets.len() as int));
    lemma_installs_flow(k, seen, win, win.gets);
    assert(WindowView { gets: win.gets, ..win } == win);
    let a = receipts(win.gets);
    let b = gets_installed(win, win.gets).1;
    lemma_still_flow(k, seen, win);
    lemma_flow_quiet(k, seen, win, win, win, Seq::empty(), a);
    assert(Seq::<OpView>::empty() + a =~= a);
    lemma_flow_concat(k, seen, win, win, gets_drained(win).0, a, b);
}

proof fn lemma_still_flow(k: Case, seen: bool, win: WindowView)
    requires
        jobs(k, seen, win),
    ensures
        flow(k, seen, win, win, Seq::<OpView>::empty()),
{
}

proof fn lemma_turned_flow(k: Case, seen: bool, win: WindowView, action: Action, stop: bool)
    requires
        jobs(k, seen, win),
    ensures
        flow(k, seen, win, turned(win, action, stop).0, turned(win, action, stop).1),
{
    lemma_drain_puts_flow(k, seen, win);
    lemma_still_flow(k, seen, win);
    let (v, a) = if win.puts.len() > 0 && (action != Action::ToAndroid || stop) {
        puts_drained(win, win.puts)
    } else {
        (win, Seq::empty())
    };
    lemma_drain_gets_flow(k, seen, v);
    lemma_still_flow(k, seen, v);
    let (u, b) = if v.gets.len() > 0 && (action != Action::ToPc || stop) {
        gets_drained(v)
    } else {
        (v, Seq::empty())
    };
    lemma_flow_concat(k, seen, win, v, u, a, b);
}

/// The steps of an action at another path, or of the case's own action at its
/// path.
spec fn fitting(
    k: Case,
    seen: bool,
    action: Action,
    here: Chars,
    pc: Option<EntryView>,
    android: Option<EntryView>,
) -> bool {
    if here == k.p() {
        seen && k.moves() && action == k.act() && pc == k.pc() && android == k.android()
    } else {
        action == Action::Conflict ==> conflict_name(here, android->0.hash) != k.p()
    }
}

/// What the case asks for was done, or is on its way.
spec fn arrives(k: Case, v: WindowView, ops: Seq<OpView>) -> bool {
    let p = k.p();
    &&& has_base(ops, p) || named(v.puts, p) || named(v.gets, p)
    &&& k.to_phone() ==> has_put(ops, p)
    &&& k.act() == Action::ToPc ==> has_install(ops, p) || named(v.gets, p)
    &&& k.told() is Some ==> has_ack(ops, p) || v.acks.dom().contains(p) || named(v.gets, p)
    &&& k.act() != Action::ToPc && k.pc() is Some ==> has_own(ops, p) || named(v.puts, p)
    &&& k.act() == Action::Conflict ==> has_mark(ops, k.aside())
}

spec fn done_with(k: Case, v: WindowView, ops: Seq<OpView>) -> bool {
    &&& k.moves() ==> arrives(k, v, ops)
    &&& k.stops() ==> has_mark(ops, k.p())
    &&& k.clears() ==> has_clear(ops, k.p())
}

proof fn lemma_done_with(
    k: Case,
    seen: bool,
    win: WindowView,
    v: WindowView,
    a: Seq<OpView>,
    b: Seq<OpView>,
)
    requires
        done_with(k, win, a),
        flow(k, seen, win, v, b),
    ensures
        done_with(k, v, a + b),
{
    lemma_has_concat(a, b, k.p());
    lemma_has_concat(a, b, k.aside());
}

proof fn lemma_sent_flow(
    k: Case,
    seen: bool,
    win: WindowView,
    here: Chars,
    pc: Option<EntryView>,
    android: Option<EntryView>,
)
    requires
        jobs(k, seen, win),
        fitting(k, seen, Action::ToAndroid, here, pc, android),
        pc is Some,
    ensures
        ({
            let (u, ops) = sent(win, here, pc->0, hash_of(android));
            &&& flow(k, seen, win, u, ops)
            &&& here == k.p() ==> arrives(k, u, ops)
        }),
{
    let entry = pc->0;
    let expected = hash_of(android);
    let full = win.puts.len() == MAX_IN_FLIGHT_FILES || win.put_bytes + entry.size
        > MAX_STAGED_BYTES;
    lemma_drain_puts_flow(k, seen, win);
    lemma_still_flow(k, seen, win);
    let (v, drained) = if full {
        puts_drained(win, win.puts)
    } else {
        (win, Seq::empty())
    };
    let (u, ops) = sent(win, here, entry, expected);
    let head = seq![
        OpView::Snapshot { path: here, entry },
        OpView::Put { path: here, expected, entry, staged: Staged::Local },
    ];
    assert(is_put(head[1], here));
    lemma_has_concat(drained, head, here);
    if entry.size > MAX_STAGED_BYTES {
        let tail = seq![
            OpView::Accept { path: here },
            OpView::Base { path: here, hash: Some(entry.hash) },
            OpView::Acknowledge { path: here, entry },
        ];
        let body = head + tail;
        assert(is_base(tail[1], here));
        assert(is_own(tail[2], here));
        lemma_has_concat(head, tail, here);
        assert forall|m: int| 0 <= m < body.len() implies apt(k, seen, #[trigger] body[m]) by {
            assert(m == 0 || m == 1 || m == 2 || m == 3 || m == 4);
        }
        assert forall|m: int| 0 <= m < body.len() && is_base(#[trigger] body[m], k.p()) implies (
        k.to_phone() ==> named(v.puts, k.p()) || has_put(body.take(m), k.p())) && (k.act()
            == Action::ToPc ==> has_install(body.take(m), k.p())) by {
            assert(m == 0 || m == 1 || m == 2 || m == 3 || m == 4);
            assert(body[1] == head[1] && body.take(3)[1] == body[1]);
            assert(is_put(body.take(3)[1], here));
        }
        lemma_flow_quiet(k, seen, win, v, u, drained, body);
        lemma_has_concat(drained, body, here);
        assert(ops =~= drained + body);
    } else {
        assert(jobs(k, seen, u)) by {
            assert forall|n: int|
                0 <= n < u.puts.len() && (#[trigger] u.puts[n]).path == k.p() implies seen
                && k.moves() && k.act() == Action::ToAndroid && k.pc() == Some(u.puts[n].entry) by {
                if n < v.puts.len() {
                    assert(u.puts[n] == v.puts[n]);
                }
            }
        }
        assert(named(v.puts, k.p()) ==> named(u.puts, k.p())) by {
            if named(v.puts, k.p()) {
                let m = choose|m: int| 0 <= m < v.puts.len() && (#[trigger] v.puts[m]).path == k.p();
                assert(u.puts[m].path == k.p());
            }
        }
        assert(named(u.puts, k.p()) ==> named(v.puts, k.p()) || here == k.p()) by {
            if named(u.puts, k.p()) {
                let m = choose|m: int| 0 <= m < u.puts.len() && (#[trigger] u.puts[m]).path == k.p();
                if m < v.puts.len() {
                    assert(v.puts[m].path == k.p());
                }
            }
        }
        assert(flow(k, seen, v, u, head));
        lemma_flow_concat(k, seen, win, v, u, drained, head);
        assert(u.puts[u.puts.len() - 1].path == here);
        assert(ops == drained + head);
    }
}

proof fn lemma_fetched_flow(
    k: Case,
    seen: bool,
    win: WindowView,
    here: Chars,
    pc: Option<EntryView>,
    android: Option<EntryView>,
)
    requires
        jobs(k, seen, win),
        fitting(k, seen, Action::ToPc, here, pc, android),
        android is Some,
    ensures
        ({
            let (u, ops) = fetched(win, here, android->0, hash_of(pc));
            &&& flow(k, seen, win, u, ops)
            &&& here == k.p() ==> arrives(k, u, ops)
        }),
{
    let entry = android->0;
    let expected = hash_of(pc);
    let full = win.gets.len() == MAX_IN_FLIGHT_FILES || win.get_bytes + entry.size
        > MAX_STAGED_BYTES;
    lemma_drain_gets_flow(k, seen, win);
    lemma_still_flow(k, seen, win);
    let (v, drained) = if full {
        gets_drained(win)
    } else {
        (win, Seq::empty())
    };
    let (u, ops) = fetched(win, here, entry, expected);
    let head = seq![OpView::Get { path: here, entry }];
    if entry.size > MAX_STAGED_BYTES {
        let (s, batch) = acked(v, here, entry);
        lemma_acked_flow(k, seen, v, here, entry);
        let middle = seq![
            OpView::Receive { path: here, entry },
            OpView::Install { path: here, expected, entry },
        ];
        let tail = seq![OpView::Base { path: here, hash: Some(entry.hash) }];
        assert(is_install(middle[1], here));
        assert(is_base(tail[0], here));
        let most = drained + head + middle + batch;
        lemma_flow_quiet(k, seen, win, v, v, drained, head);
        lemma_flow_quiet(k, seen, win, v, v, drained + head, middle);
        lemma_flow_concat(k, seen, win, v, s, drained + head + middle, batch);
        lemma_has_concat(drained + head, middle, here);
        lemma_has_concat(drained + head + middle, batch, here);
        lemma_has_concat(most, tail, here);
        lemma_has_concat(most, tail, k.p());
        assert(ops == most + tail);
        assert forall|m: int| 0 <= m < ops.len() implies apt(k, seen, #[trigger] ops[m]) by {
            if m < most.len() {
                assert(ops[m] == most[m]);
            } else {
                assert(ops[m] == tail[m - most.len()]);
            }
        }
        assert forall|m: int| 0 <= m < ops.len() && is_base(#[trigger] ops[m], k.p()) implies (
        k.to_phone() ==> named(win.puts, k.p()) || has_put(ops.take(m), k.p())) && (k.act()
            == Action::ToPc ==> has_install(ops.take(m), k.p())) by {
            if m < most.len() {
                assert(ops[m] == most[m]);
                assert(ops.take(m) =~= most.take(m));
            } else {
                assert(ops.take(m) =~= most);
            }
        }
    } else {
        assert(jobs(k, seen, u)) by {
            assert forall|n: int|
                0 <= n < u.gets.len() && (#[trigger] u.gets[n]).path == k.p() implies seen
                && k.moves() && k.act() == Action::ToPc && k.android() == Some(u.gets[n].entry)
                && u.gets[n].expected == hash_of(k.pc()) by {
                if n < v.gets.len() {
                    assert(u.gets[n] == v.gets[n]);
                }
            }
        }
        assert(named(v.gets, k.p()) ==> named(u.gets, k.p())) by {
            if named(v.gets, k.p()) {
                let m = choose|m: int| 0 <= m < v.gets.len() && (#[trigger] v.gets[m]).path == k.p();
                assert(u.gets[m].path == k.p());
            }
        }
        assert(flow(k, seen, v, u, head));
        lemma_flow_concat(k, seen, win, v, u, drained, head);
        assert(u.gets[u.gets.len() - 1].path == here);
        assert(ops == drained + head);
    }
}

proof fn lemma_parted_flow(
    k: Case,
    seen: bool,
    win: WindowView,
    here: Chars,
    pc: Option<EntryView>,
    android: Option<EntryView>,
)
    requires
        jobs(k, seen, win),
        fitting(k, seen, Action::Conflict, here, pc, android),
        conflict_name(here, android->0.hash) != k.p(),
        pc is Some,
        android is Some,
    ensures
        ({
            let (u, ops) = parted(win, here, pc->0, android->0);
            &&& flow(k, seen, win, u, ops)
            &&& here == k.p() ==> arrives(k, u, ops)
        }),
{
    let (u, ops) = parted(win, here, pc->0, android->0);
    assert(ops.len() == 12);
    assert forall|n: int| 0 <= n < ops.len() implies apt(k, seen, #[trigger] ops[n]) by {
        assert(n == 0 || n == 1 || n == 2 || n == 3 || n == 4 || n == 5 || n == 6 || n == 7 || n
            == 8 || n == 9 || n == 10 || n == 11);
    }
    assert forall|n: int| 0 <= n < ops.len() && is_base(#[trigger] ops[n], k.p()) implies (
    k.to_phone() ==> named(win.puts, k.p()) || has_put(ops.take(n), k.p())) && (k.act()
        == Action::ToPc ==> has_install(ops.take(n), k.p())) by {
        assert(n == 0 || n == 1 || n == 2 || n == 3 || n == 4 || n == 5 || n == 6 || n == 7 || n
            == 8 || n == 9 || n == 10 || n == 11);
        assert(ops.take(11)[6] == ops[6]);
        assert(is_put(ops.take(11)[6], here));
    }
    assert(is_put(ops[6], here));
    assert(is_own(ops[8], here));
    assert(ops[9] == (OpView::Mark { path: conflict_name(here, android->0.hash) }));
    assert(is_base(ops[11], here));
}

proof fn lemma_agreed_flow(
    k: Case,
    seen: bool,
    win: WindowView,
    here: Chars,
    pc: Option<EntryView>,
    android: Option<EntryView>,
)
    requires
        jobs(k, seen, win),
        fitting(k, seen, Action::Nothing, here, pc, android),
    ensures
        ({
            let (u, ops) = agreed(win, here, pc);
            &&& flow(k, seen, win, u, ops)
            &&& here == k.p() ==> arrives(k, u, ops)
        }),
{
    let (u, ops) = agreed(win, here, pc);
    match pc {
        None => {
            assert(is_base(ops[0], here));
        },
        Some(entry) => {
            let (v, batch) = acked(win, here, entry);
            lemma_acked_flow(k, seen, win, here, entry);
            let none = Seq::<OpView>::empty();
            let first = seq![OpView::Acknowledge { path: here, entry }];
            let last = seq![OpView::Base { path: here, hash: Some(entry.hash) }];
            assert(is_own(first[0], here));
            assert(is_base(last[0], here));
            lemma_still_flow(k, seen, win);
            lemma_flow_quiet(k, seen, win, win, win, none, first);
            assert(none + first =~= first);
            lemma_flow_concat(k, seen, win, win, v, first, batch);
            lemma_flow_quiet(k, seen, win, v, u, first + batch, last);
            lemma_has_concat(first, batch, here);
            lemma_has_concat(first + batch, last, here);
            assert(ops == first + batch + last);
        },
    }
}

proof fn lemma_acted_flow(
    k: Case,
    seen: bool,
    win: WindowView,
    action: Action,
    here: Chars,
    pc: Option<EntryView>,
    android: Option<EntryView>,
)
    requires
        jobs(k, seen, win),
        fitting(k, seen, action, here, pc, android),
        action == Action::Conflict ==> conflict_name(here, android->0.hash) != k.p(),
        action == Action::ToAndroid || action == Action::Conflict ==> pc is Some,
        action == Action::ToPc || action == Action::Conflict ==> android is Some,
    ensures
        ({
            let (u, ops) = acted(win, action, here, pc, android);
            &&& flow(k, seen, win, u, ops)
            &&& here == k.p() ==> arrives(k, u, ops)
        }),
{
    match action {
        Action::Nothing => {
            lemma_agreed_flow(k, seen, win, here, pc, android);
        },
        Action::ToAndroid => {
            lemma_sent_flow(k, seen, win, here, pc, android);
        },
        Action::ToPc => {
            lemma_fetched_flow(k, seen, win, here, pc, android);
        },
        Action::Conflict => {
            lemma_parted_flow(k, seen, win, here, pc, android);
        },
    }
}

/// What holds between two paths of a round, after some steps.
spec fn going(k: Case, done: int, win: WindowView, past: Seq<OpView>) -> bool {
    &&& flow(k, k.i < done, empty_window(), win, past)
    &&& k.i < done ==> done_with(k, win, past)
}

proof fn lemma_step(k: Case, r: RoundView, past: Seq<OpView>)
    requires
        k.sound(),
        r.paths == k.c.paths,
        r.pc == k.c.pc,
        r.android == k.c.android,
        r.mode == k.c.mode,
        r.remap == k.c.remap,
        r.paths.no_duplicates(),
        0 <= r.index < r.paths.len(),
        going(k, r.index, r.window, past),
    ensures
        ({
            let (next, ops) = next_step(r, apply_all(k.start, past).state, k.policy);
            going(k, r.index + 1, next.window, past + ops)
        }),
{
    let t = apply_all(k.start, past);
    let here = r.paths[r.index];
    let seen = k.i < r.index + 1;
    let (next, ops) = next_step(r, t.state, k.policy);
    let p = k.p();
    let win = r.window;
    lemma_steps(k, k.i < r.index, k.start, past);
    assert(held(k, k.i < r.index, t) && jobs(k, seen, win));
    assert(flow(k, seen, empty_window(), win, past));
    assert(here == p <==> r.index == k.i);
    let u = next.window;
    if ignored(k.policy, here, false) {
        assert(past + ops =~= past);
    } else {
        let base = look(t.state.files, here);
        let pc = look(r.pc, here);
        let android = look(r.android, here);
        let action = decided(base, pc, android, r.remap);
        let stop = forbidden(r.mode, base, r.remap, action);
        assert(action == Action::Conflict ==> conflict_name(here, android->0.hash) != p) by {
            if action == Action::Conflict {
                assert(look(k.c.android, k.c.paths[r.index]) is Some);
            }
        }
        let (v, drained) = turned(win, action, stop);
        lemma_turned_flow(k, seen, win, action, stop);
        let shown = if action != Action::Nothing {
            seq![OpView::Progress { path: here, index: r.index, total: r.paths.len() as int }]
        } else {
            Seq::empty()
        };
        lemma_flow_quiet(k, seen, win, v, v, drained, shown);
        if stop {
            let tail = seq![OpView::Mark { path: here }, OpView::Persist];
            lemma_flow_quiet(k, seen, win, v, u, drained + shown, tail);
            assert(tail[0] == (OpView::Mark { path: here }));
            lemma_has_concat(drained + shown, tail, here);
            assert(ops == drained + shown + tail);
            assert(has_mark(ops, here));
        } else {
            let cleared = if action != Action::Conflict && !begins(here, "Rowd Conflicts/"@) {
                seq![OpView::Clear { path: here }]
            } else {
                Seq::empty()
            };
            lemma_flow_quiet(k, seen, win, v, v, drained + shown, cleared);
            let (s, acts) = acted(v, action, here, pc, android);
            lemma_acted_flow(k, seen, v, action, here, pc, android);
            lemma_flow_concat(k, seen, win, v, s, drained + shown + cleared, acts);
            let stored = if new_base(base, action, pc, android) != base {
                seq![OpView::Persist]
            } else {
                Seq::empty()
            };
            lemma_flow_quiet(k, seen, win, s, u, drained + shown + cleared + acts, stored);
            if action != Action::Conflict && !begins(here, "Rowd Conflicts/"@) {
                assert(cleared[0] == (OpView::Clear { path: here }));
                assert(has_clear(cleared, here));
            }
            lemma_has_concat(drained + shown, cleared, here);
            lemma_has_concat(drained + shown + cleared, acts, here);
            lemma_has_concat(drained + shown + cleared + acts, stored, here);
            lemma_has_concat(drained + shown + cleared, acts, k.aside());
            lemma_has_concat(drained + shown + cleared + acts, stored, k.aside());
            assert(ops == drained + shown + cleared + acts + stored);
        }
        assert(flow(k, seen, win, u, ops));
        lemma_flow_concat(k, seen, empty_window(), win, u, past, ops);
        if k.i < r.index {
            lemma_done_with(k, seen, win, u, past, ops);
        } else if here == p {
            lemma_has_concat(past, ops, p);
            lemma_has_concat(past, ops, k.aside());
        }
    }
}

proof fn lemma_outcome(k: Case, r: RoundView, past: Seq<OpView>)
    requires
        k.sound(),
        r.paths == k.c.paths,
        r.pc == k.c.pc,
        r.android == k.c.android,
        r.mode == k.c.mode,
        r.remap == k.c.remap,
        r.paths.no_duplicates(),
        0 <= r.index <= r.paths.len(),
        going(k, r.index, r.window, past),
    ensures
        ({
            let ops = past + steps(r, apply_all(k.start, past), k.policy);
            flow(k, true, empty_window(), empty_window(), ops) && done_with(k, empty_window(), ops)
        }),
    decreases r.paths.len() - r.index,
{
    let t = apply_all(k.start, past);
    if r.index < r.paths.len() {
        lemma_step(k, r, past);
        let (next, ops) = next_step(r, t.state, k.policy);
        lemma_concat(k.start, past, ops);
        lemma_outcome(k, next, past + ops);
        let rest = steps(next, apply_all(t, ops), k.policy);
        assert(past + (ops + rest) =~= (past + ops) + rest);
    } else {
        let win = r.window;
        let (a, x) = puts_drained(win, win.puts);
        lemma_drain_puts_flow(k, true, win);
        let (b, y) = gets_drained(a);
        lemma_drain_gets_flow(k, true, a);
        lemma_flow_concat(k, true, win, a, b, x, y);
        let (c, z) = flushed(b);
        if b.acks.dom().len() == 0 {
            assert(b.acks.dom() =~= Set::<Chars>::empty());
        } else {
            assert(z[0] == (OpView::SendAcks { entries: b.acks }));
            assert(b.acks.dom().contains(k.p()) ==> is_ack(z[0], k.p()));
        }
        assert(flow(k, true, b, c, z));
        lemma_flow_concat(k, true, win, b, c, x + y, z);
        let last = seq![
            OpView::Progress {
                path: Seq::empty(),
                index: r.paths.len() as int,
                total: r.paths.len() as int,
            },
        ];
        lemma_flow_quiet(k, true, win, c, c, x + y + z, last);
        let ops = x + y + z + last;
        lemma_flow_concat(k, true, empty_window(), win, c, past, ops);
        lemma_done_with(k, true, win, c, past, ops);
        assert(!named(c.puts, k.p()) && !named(c.gets, k.p()) && !c.acks.dom().contains(k.p()));
        assert(!named(empty_window().puts, k.p()) && !named(empty_window().gets, k.p()));
        assert(steps(r, t, k.policy) == ops);
    }
}

proof fn lemma_whole(k: Case, r: RoundView)
    requires
        k.sound(),
        r == k.c,
        r.index == 0,
        r.window == empty_window(),
        r.paths.no_duplicates(),
    ensures
        ({
            let ops = steps(r, k.start, k.policy);
            &&& flow(k, true, empty_window(), empty_window(), ops)
            &&& done_with(k, empty_window(), ops)
            &&& !named(empty_window().puts, k.p())
            &&& !named(empty_window().gets, k.p())
        }),
{
    let none = Seq::<OpView>::empty();
    lemma_still_flow(k, false, r.window);
    assert(going(k, 0, r.window, none));
    assert(apply_all(k.start, none) == k.start);
    lemma_outcome(k, r, none);
    assert(none + steps(r, k.start, k.policy) =~= steps(r, k.start, k.policy));
}

/// What a round leaves at a path follows from what both sides held there, what
/// they had agreed on, and the mode of the Share. Where the policy ignores the
/// path, nothing changes. Where both sides hold the same, that is agreed on.
/// A file goes to the phone where the phone holds nothing or the content that
/// was agreed on, if the mode lets files go there; the other way round it comes
/// to the PC. Two versions that both differ from what was agreed on leave the
/// PC's at the path, if the mode lets files go both ways. What the mode does
/// not let happen changes nothing and is noted as a conflict. After a remap,
/// files that nothing was agreed on move whatever the mode, and the remap
/// policy says whose version wins. Left out are the paths at which a round may
/// keep a conflicting version of another.
pub proof fn law_round_leaves(r: RoundView, w: World, policy: Seq<Chars>, i: int)
    requires
        r.index == 0,
        r.window == empty_window(),
        r.paths.no_duplicates(),
        r.pc == w.pc,
        r.android == w.android,
        0 <= i < r.paths.len(),
        !keeps_aside(r, r.paths[i]),
    ensures
        ({
            let p = r.paths[i];
            let t = run(r, w, policy);
            let pc = look(w.pc, p);
            let phone = look(w.android, p);
            let base = look(w.state.files, p);
            let first = base is None && r.remap is Some;
            let differ = hash_of(pc) != hash_of(phone);
            let both = pc is Some && phone is Some;
            let out = pc is Some && differ && (phone is None || base == hash_of(phone));
            let back = phone is Some && differ && (pc is None || base == hash_of(pc));
            let split = both && differ && !out && !back;
            let same = look(t.pc, p) == pc && look(t.android, p) == phone;
            let unmoved = same && look(t.state.files, p) == base;
            let of_pc = look(t.pc, p) == pc && look(t.android, p) == pc && look(t.state.files, p)
                == hash_of(pc);
            let of_phone = look(t.pc, p) == phone && look(t.android, p) == phone && look(
                t.state.files,
                p,
            ) == hash_of(phone);
            let noted = t.state.conflicts.contains(p);
            &&& ignored(policy, p, false) ==> unmoved && noted == w.state.conflicts.contains(p)
            &&& !ignored(policy, p, false) ==> {
                &&& !differ ==> same && look(t.state.files, p) == hash_of(pc)
                &&& out && (first || r.mode != SyncMode::ToPc) ==> of_pc
                &&& out && !first && r.mode == SyncMode::ToPc ==> unmoved && noted
                &&& back && (first || r.mode != SyncMode::ToAndroid) ==> of_phone
                &&& back && !first && r.mode == SyncMode::ToAndroid ==> unmoved && noted
                &&& split && first && r.remap == Some(RemapPolicy::Pc) ==> of_pc
                &&& split && first && r.remap == Some(RemapPolicy::Android) ==> of_phone
                &&& split && first && r.remap == Some(RemapPolicy::Compare) ==> of_pc
                &&& split && !first && r.mode == SyncMode::Bidirectional ==> of_pc
                &&& split && !first && r.mode != SyncMode::Bidirectional ==> unmoved && noted
                &&& !begins(p, "Rowd Conflicts/"@) && (!differ || (out && r.mode != SyncMode::ToPc)
                    || (back && r.mode != SyncMode::ToAndroid)) ==> !noted
            }
        }),
{
    let k = Case { c: r, start: w, policy, i };
    lemma_whole(k, r);
    law_round_is_its_steps(r, w, policy);
    lemma_steps(k, true, w, steps(r, w, policy));
}

/// A Share that moves files to the phone does move them: every file of the PC
/// at whose path the phone holds nothing, or what was agreed on, is on both
/// sides afterwards, and that is agreed on.
pub proof fn law_to_android_brings_the_files(r: RoundView, w: World, policy: Seq<Chars>, i: int)
    requires
        r.index == 0,
        r.window == empty_window(),
        r.paths.no_duplicates(),
        r.pc == w.pc,
        r.android == w.android,
        r.remap is None,
        r.mode == SyncMode::ToAndroid,
        0 <= i < r.paths.len(),
        !ignored(policy, r.paths[i], false),
        w.pc.dom().contains(r.paths[i]),
        !w.android.dom().contains(r.paths[i]) || look(w.state.files, r.paths[i]) == Some(
            w.android[r.paths[i]].hash,
        ),
    ensures
        ({
            let p = r.paths[i];
            let t = run(r, w, policy);
            let h = Some(w.pc[p].hash);
            &&& t.pc == w.pc
            &&& hash_of(look(t.pc, p)) == h
            &&& hash_of(look(t.android, p)) == h
            &&& look(t.state.files, p) == h
        }),
{
    law_to_android_spares_the_pc(r, w, policy);
    law_round_converges(r, w, policy);
    let p = r.paths[i];
    assert(due_paths(r, w, policy).contains(p));
    assert(settled_at(run(r, w, policy), p));
}

/// A Share that moves files to the PC does move them: every file of the phone
/// at whose path the PC holds nothing, or what was agreed on, is on both sides
/// afterwards, and that is agreed on.
pub proof fn law_to_pc_brings_the_files(r: RoundView, w: World, policy: Seq<Chars>, i: int)
    requires
        r.index == 0,
        r.window == empty_window(),
        r.paths.no_duplicates(),
        r.pc == w.pc,
        r.android == w.android,
        r.remap is None,
        r.mode == SyncMode::ToPc,
        0 <= i < r.paths.len(),
        !ignored(policy, r.paths[i], false),
        w.android.dom().contains(r.paths[i]),
        !w.pc.dom().contains(r.paths[i]) || look(w.state.files, r.paths[i]) == Some(
            w.pc[r.paths[i]].hash,
        ),
    ensures
        ({
            let p = r.paths[i];
            let t = run(r, w, policy);
            let h = Some(w.android[p].hash);
            &&& t.android == w.android
            &&& hash_of(look(t.pc, p)) == h
            &&& hash_of(look(t.android, p)) == h
            &&& look(t.state.files, p) == h
        }),
{
    law_to_pc_spares_the_phone(r, w, policy);
    law_round_converges(r, w, policy);
    let p = r.paths[i];
    assert(due_paths(r, w, policy).contains(p));
    assert(settled_at(run(r, w, policy), p));
}

/// A Share that moves files both ways settles every path that the policy does
/// not ignore. Left out are rounds that come to a path after a conflicting
/// version of another was put there, where a side held another content at it
/// or neither held a file.
pub proof fn law_both_ways_settle_everything(r: RoundView, w: World, policy: Seq<Chars>, i: int)
    requires
        r.index == 0,
        r.window == empty_window(),
        r.paths.no_duplicates(),
        r.pc == w.pc,
        r.android == w.android,
        r.mode == SyncMode::Bidirectional,
        0 <= i < r.paths.len(),
        !ignored(policy, r.paths[i], false),
        forall|n: int| #![trigger r.paths[n]]
            0 <= n < r.paths.len() && look(w.android, r.paths[n]) is Some ==> aside_fits(
                w,
                r.paths,
                n,
                look(w.android, r.paths[n])->0.hash,
            ),
    ensures
        ({
            let p = r.paths[i];
            let t = run(r, w, policy);
            &&& hash_of(look(t.pc, p)) == hash_of(look(t.android, p))
            &&& look(t.state.files, p) == hash_of(look(t.pc, p))
        }),
{
    law_round_converges(r, w, policy);
    assert(due_paths(r, w, policy).contains(r.paths[i]));
}

/// In a Share that moves files both ways, two versions that both differ from
/// what was agreed on are both kept: the PC's at the path, the phone's under a
/// name of its own, on both sides. Left out are rounds that would keep a
/// version where other content stands already.
pub proof fn law_two_versions_are_both_kept(r: RoundView, w: World, policy: Seq<Chars>, i: int)
    requires
        r.index == 0,
        r.window == empty_window(),
        r.paths.no_duplicates(),
        r.pc == w.pc,
        r.android == w.android,
        r.mode == SyncMode::Bidirectional,
        r.remap is None || r.remap == Some(RemapPolicy::Compare),
        asides_clear(r, w, policy),
        hashes_sound(w.android),
        0 <= i < r.paths.len(),
        !ignored(policy, r.paths[i], false),
        w.pc.dom().contains(r.paths[i]),
        w.android.dom().contains(r.paths[i]),
        w.pc[r.paths[i]].hash != w.android[r.paths[i]].hash,
        look(w.state.files, r.paths[i]) != Some(w.pc[r.paths[i]].hash),
        look(w.state.files, r.paths[i]) != Some(w.android[r.paths[i]].hash),
    ensures
        ({
            let p = r.paths[i];
            let t = run(r, w, policy);
            let q = conflict_name(p, w.android[p].hash);
            &&& hash_of(look(t.pc, p)) == Some(w.pc[p].hash)
            &&& hash_of(look(t.pc, q)) == Some(w.android[p].hash)
            &&& hash_of(look(t.android, q)) == Some(w.android[p].hash)
        }),
{
    law_conflicts_keep_both(r, w, policy, i);
    assert(held_aside(w, run(r, w, policy), r.paths[i]));
}

/// Both sides hold what is agreed on, unless it was agreed on before.
spec fn true_at(k: Case, t: World) -> bool {
    let h = look(t.state.files, k.p());
    h == k.base() || (hash_of(look(t.pc, k.p())) == h && hash_of(look(t.android, k.p())) == h)
}

proof fn lemma_prefix(k: Case, ops: Seq<OpView>, n: int)
    requires
        all_apt(k, true, ops),
        led(k, false, ops),
        0 <= n <= ops.len(),
    ensures
        true_at(k, apply_all(k.start, ops.take(n))),
    decreases n,
{
    let now = ops.take(n);
    if n == 0 {
        assert(apply_all(k.start, now) == k.start);
    } else {
        lemma_prefix(k, ops, n - 1);
        let before = ops.take(n - 1);
        let op = ops[n - 1];
        assert(now =~= before.push(op));
        lemma_push(k.start, before, op);
        assert forall|m: int| 0 <= m < before.len() implies apt(k, true, #[trigger] before[m]) by {
            assert(before[m] == ops[m]);
        }
        lemma_steps(k, true, k.start, before);
        assert(apt(k, true, op));
        let t = apply_all(k.start, before);
        let u = apply(t, op);
        let p = k.p();
        assert(look(u.pc, p) == look(t.pc, p) || is_install(op, p));
        assert(look(u.android, p) == look(t.android, p) || is_put(op, p));
        assert(look(u.state.files, p) == look(t.state.files, p) || is_base(op, p));
    }
}

/// Whenever a round is cut short, what it agreed on is true: after any number
/// of its steps the agreed state holds at a path what it held before, or what
/// both sides hold there at that moment. Left out are the paths at which a
/// round may keep a conflicting version of another.
pub proof fn law_agreement_is_always_true(
    r: RoundView,
    w: World,
    policy: Seq<Chars>,
    i: int,
    n: int,
)
    requires
        r.index == 0,
        r.window == empty_window(),
        r.paths.no_duplicates(),
        r.pc == w.pc,
        r.android == w.android,
        0 <= i < r.paths.len(),
        !keeps_aside(r, r.paths[i]),
        0 <= n <= steps(r, w, policy).len(),
    ensures
        ({
            let p = r.paths[i];
            let t = apply_all(w, steps(r, w, policy).take(n));
            let agreed_now = look(t.state.files, p);
            agreed_now == look(w.state.files, p) || (agreed_now == hash_of(look(t.pc, p))
                && agreed_now == hash_of(look(t.android, p)))
        }),
{
    let k = Case { c: r, start: w, policy, i };
    lemma_whole(k, r);
    lemma_prefix(k, steps(r, w, policy), n);
}

/// A round writes at a path only the other side's version, and only over the
/// content that its manifest showed there. A version that both sides hold
/// already, and one that the PC fetched, is confirmed to the phone before the
/// round ends; nothing else is confirmed. Left out are the paths at which a
/// round may keep a conflicting version of another.
pub proof fn law_steps_carry_the_right_files(r: RoundView, w: World, policy: Seq<Chars>, i: int)
    requires
        r.index == 0,
        r.window == empty_window(),
        r.paths.no_duplicates(),
        r.pc == w.pc,
        r.android == w.android,
        0 <= i < r.paths.len(),
        !keeps_aside(r, r.paths[i]),
    ensures
        ({
            let p = r.paths[i];
            let ops = steps(r, w, policy);
            let pc = look(w.pc, p);
            let phone = look(w.android, p);
            let t = run(r, w, policy);
            let fetched_here = pc != look(t.pc, p);
            &&& forall|n: int|
                0 <= n < ops.len() ==> match #[trigger] ops[n] {
                    OpView::Put { path, expected, entry, staged } => path == p ==> pc == Some(entry)
                        && expected == hash_of(phone),
                    OpView::Install { path, expected, entry } => path == p ==> phone == Some(entry)
                        && expected == hash_of(pc),
                    OpView::Acknowledge { path, entry } => path == p ==> pc == Some(entry) && look(
                        t.state.files,
                        p,
                    ) == Some(entry.hash),
                    OpView::SendAcks { entries } => entries.dom().contains(p) ==> look(t.pc, p)
                        == Some(entries[p]) && look(t.state.files, p) == Some(entries[p].hash),
                    _ => true,
                }
            &&& fetched_here || (!ignored(policy, p, false) && pc is Some && hash_of(pc) == hash_of(
                phone,
            )) ==> exists|n: int| #![trigger ops[n]]
                0 <= n < ops.len() && ops[n] is SendAcks && ops[n]->entries.dom().contains(p)
            &&& !ignored(policy, p, false) && pc is Some && look(t.pc, p) == pc && look(
                t.state.files,
                p,
            ) == hash_of(pc) && hash_of(look(t.android, p)) == hash_of(pc) && (look(
                w.state.files,
                p,
            ) != hash_of(pc) || hash_of(phone) == hash_of(pc)) ==> exists|n: int|
                #![trigger ops[n]]
                0 <= n < ops.len() && ops[n] == (OpView::Acknowledge { path: p, entry: pc->0 })
        }),
{
    let k = Case { c: r, start: w, policy, i };
    let ops = steps(r, w, policy);
    let p = r.paths[i];
    lemma_whole(k, r);
    law_round_is_its_steps(r, w, policy);
    lemma_steps(k, true, w, ops);
    assert forall|n: int| 0 <= n < ops.len() implies apt(k, true, #[trigger] ops[n]) by {}
    if has_ack(ops, p) {
        let n = choose|n: int| 0 <= n < ops.len() && is_ack(#[trigger] ops[n], p);
        assert(ops[n] is SendAcks && ops[n]->entries.dom().contains(p));
    }
    if has_own(ops, p) {
        let n = choose|n: int| 0 <= n < ops.len() && is_own(#[trigger] ops[n], p);
        assert(apt(k, true, ops[n]));
        assert(ops[n] == (OpView::Acknowledge { path: p, entry: k.pc()->0 }));
    }
}

proof fn lemma_noted(k: Case, t: World, ops: Seq<OpView>, q: Chars)
    requires
        all_apt(k, true, ops),
        begins(q, "Rowd Conflicts/"@),
    ensures
        t.state.conflicts.contains(q) || has_mark(ops, q) ==> apply_all(
            t,
            ops,
        ).state.conflicts.contains(q),
    decreases ops.len(),
{
    if ops.len() > 0 {
        let less = ops.drop_last();
        let n = ops.len() - 1;
        assert forall|m: int| 0 <= m < less.len() implies apt(k, true, #[trigger] less[m]) by {
            assert(less[m] == ops[m]);
        }
        lemma_noted(k, t, less, q);
        assert(apt(k, true, ops[n]));
        if has_mark(ops, q) {
            let m = choose|m: int|
                0 <= m < ops.len() && #[trigger] ops[m] == (OpView::Mark { path: q });
            if m < n {
                assert(less[m] == ops[m]);
            }
        }
    }
}

proof fn lemma_aside_begins(path: Chars, hash: Chars)
    ensures
        begins(conflict_name(path, hash), "Rowd Conflicts/"@),
{
    let head = "Rowd Conflicts/"@;
    let q = conflict_name(path, hash);
    assert(q.len() >= head.len());
    assert(q.take(head.len() as int) =~= head);
}

/// Every conflict is noted: where both sides hold versions that differ from
/// what was agreed on, and the mode lets files go both ways, the place where
/// the phone's version is kept is among the conflicts afterwards. Left out are
/// the paths at which a round may keep a conflicting version of another.
pub proof fn law_every_conflict_is_noted(r: RoundView, w: World, policy: Seq<Chars>, i: int)
    requires
        r.index == 0,
        r.window == empty_window(),
        r.paths.no_duplicates(),
        r.pc == w.pc,
        r.android == w.android,
        r.mode == SyncMode::Bidirectional,
        r.remap is None || r.remap == Some(RemapPolicy::Compare),
        0 <= i < r.paths.len(),
        !keeps_aside(r, r.paths[i]),
        !ignored(policy, r.paths[i], false),
        w.pc.dom().contains(r.paths[i]),
        w.android.dom().contains(r.paths[i]),
        w.pc[r.paths[i]].hash != w.android[r.paths[i]].hash,
        look(w.state.files, r.paths[i]) != Some(w.pc[r.paths[i]].hash),
        look(w.state.files, r.paths[i]) != Some(w.android[r.paths[i]].hash),
    ensures
        run(r, w, policy).state.conflicts.contains(
            conflict_name(r.paths[i], w.android[r.paths[i]].hash),
        ),
{
    let k = Case { c: r, start: w, policy, i };
    let ops = steps(r, w, policy);
    lemma_whole(k, r);
    law_round_is_its_steps(r, w, policy);
    lemma_aside_begins(k.p(), k.android()->0.hash);
    assert(k.act() == Action::Conflict && k.moves());
    lemma_noted(k, w, ops, k.aside());
}

} // verus!
