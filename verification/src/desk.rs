//! The order of a round's steps: what is sent was copied before, what is
//! installed was received before, what was asked for arrives, and nothing is
//! agreed on while it is on its way.

use crate::convergence::{apart, apply_all, named, run, steps, World};
use crate::ignore::ignored;
use crate::journal::look;
use crate::model::{conflict_name, Action, EntryView};
use crate::protocol::MANIFEST_CHUNK_FILES;
use crate::storage::hash_of;
use crate::sync::{
    acked, acted, agreed, decided, empty_window, fetched, flushed, forbidden, gets_drained,
    gets_installed, new_base, next_step, parted, puts_drained, receipts,
    sent, turned, JobView, OpView, RoundView, Staged, WindowView, MAX_IN_FLIGHT_FILES,
    MAX_STAGED_BYTES,
};
use crate::text::{begins, Chars};
use vstd::prelude::*;

verus! {

/// What the PC has at hand while a round runs.
#[verifier::ext_equal]
pub struct Desk {
    /// A file of the PC that was copied in order to be sent.
    pub copy: Option<(Chars, EntryView)>,
    /// The files that the phone was asked for and has not sent yet.
    pub asked: Seq<(Chars, EntryView)>,
    /// The files that arrived and have not been used up.
    pub arrived: Seq<(Chars, EntryView)>,
    /// The first of them was kept aside on the PC and has yet to go to the phone.
    pub aside: bool,
    /// The files that were sent and are not confirmed yet.
    pub sent: Seq<(Chars, EntryView)>,
}

/// Nothing is at hand.
pub open spec fn empty_desk() -> Desk {
    Desk {
        copy: None,
        asked: Seq::empty(),
        arrived: Seq::empty(),
        aside: false,
        sent: Seq::empty(),
    }
}

/// A file with this path is on its way.
pub open spec fn busy(d: Desk, p: Chars) -> bool {
    ||| exists|i: int| 0 <= i < d.sent.len() && (#[trigger] d.sent[i]).0 == p
    ||| exists|i: int| 0 <= i < d.asked.len() && (#[trigger] d.asked[i]).0 == p
    ||| exists|i: int| 0 <= i < d.arrived.len() && (#[trigger] d.arrived[i]).0 == p
}

/// The total size of files.
pub open spec fn sizes(s: Seq<(Chars, EntryView)>) -> int
    decreases s.len(),
{
    if s.len() == 0 {
        0
    } else {
        sizes(s.drop_last()) + s.last().1.size
    }
}

/// One more file may be on its way with these: at most four are, and eight
/// mebibytes, or one file alone.
pub open spec fn has_room(s: Seq<(Chars, EntryView)>, entry: EntryView) -> bool {
    s.len() == 0 || (s.len() < 4 && sizes(s) + entry.size <= 8 * 1024 * 1024)
}

/// What is at hand after a step, if the step can be done. A file is sent from
/// the copy that was made of it, or from what arrived; it is confirmed in the
/// order of sending. What arrives was asked for, in the same order. What is
/// installed has arrived, is used up by it, and goes to its own path; only in a
/// conflict, while the copy of the PC's version waits, it goes aside and is
/// used up when it was sent to the phone too. Nothing is agreed on or confirmed
/// while it is on its way, and no message confirms nothing or too much. Files
/// move in one direction at a time, and few at once.
pub open spec fn does(d: Desk, op: OpView) -> Option<Desk> {
    match op {
        OpView::Snapshot { path, entry } => if d.copy is None {
            Some(Desk { copy: Some((path, entry)), ..d })
        } else {
            None
        },
        OpView::Put { path, expected, entry, staged: Staged::Local } => if d.copy == Some(
            (path, entry),
        ) && d.asked.len() == 0 && d.arrived.len() == 0 && has_room(d.sent, entry) {
            Some(Desk { copy: None, sent: d.sent.push((path, entry)), ..d })
        } else {
            None
        },
        OpView::Put { path, expected, entry, staged: Staged::Remote } => if d.arrived.len() > 0
            && d.arrived[0].1 == entry && d.aside && d.sent.len() == 0 {
            Some(
                Desk {
                    arrived: d.arrived.drop_first(),
                    aside: false,
                    sent: d.sent.push((path, entry)),
                    ..d
                },
            )
        } else {
            None
        },
        OpView::Accept { path } => if d.sent.len() > 0 && d.sent[0].0 == path {
            Some(Desk { sent: d.sent.drop_first(), ..d })
        } else {
            None
        },
        OpView::Get { path, entry } => if d.sent.len() == 0 && d.arrived.len() == 0 && has_room(
            d.asked,
            entry,
        ) {
            Some(Desk { asked: d.asked.push((path, entry)), ..d })
        } else {
            None
        },
        OpView::Receive { path, entry } => if d.asked.len() > 0 && d.asked[0] == (path, entry) {
            Some(
                Desk {
                    asked: d.asked.drop_first(),
                    arrived: d.arrived.push((path, entry)),
                    ..d
                },
            )
        } else {
            None
        },
        OpView::Install { path, expected, entry } => if d.arrived.len() == 0 || d.arrived[0].1
            != entry || d.aside {
            None
        } else if d.copy is Some {
            if path == conflict_name(d.arrived[0].0, entry.hash) {
                Some(Desk { aside: true, ..d })
            } else {
                None
            }
        } else if path == d.arrived[0].0 {
            Some(Desk { arrived: d.arrived.drop_first(), ..d })
        } else {
            None
        },
        OpView::Base { path, hash } => if busy(d, path) {
            None
        } else {
            Some(d)
        },
        OpView::Acknowledge { path, entry } => if busy(d, path) {
            None
        } else {
            Some(d)
        },
        OpView::SendAcks { entries } => if entries.dom().finite() && 0 < entries.dom().len()
            <= 1024 && forall|p: Chars| #[trigger]
            entries.dom().contains(p) ==> !busy(d, p) {
            Some(d)
        } else {
            None
        },
        _ => Some(d),
    }
}

/// What is at hand after steps, if they can be done in their order.
pub open spec fn does_all(d: Desk, ops: Seq<OpView>) -> Option<Desk>
    decreases ops.len(),
{
    if ops.len() == 0 {
        Some(d)
    } else {
        match does_all(d, ops.drop_last()) {
            Some(e) => does(e, ops.last()),
            None => None,
        }
    }
}

proof fn lemma_push(d: Desk, ops: Seq<OpView>, op: OpView)
    ensures
        does_all(d, ops) is Some ==> does_all(d, ops.push(op)) == does(does_all(d, ops)->0, op),
{
    assert(ops.push(op).drop_last() =~= ops);
}

proof fn lemma_concat(d: Desk, a: Seq<OpView>, b: Seq<OpView>)
    requires
        does_all(d, a) is Some,
    ensures
        does_all(d, a + b) == does_all(does_all(d, a)->0, b),
    decreases b.len(),
{
    if b.len() == 0 {
        assert(a + b =~= a);
    } else {
        lemma_concat(d, a, b.drop_last());
        assert((a + b).drop_last() =~= a + b.drop_last());
        assert((a + b).last() == b.last());
    }
}

proof fn lemma_one(d: Desk, op: OpView)
    ensures
        does_all(d, seq![op]) == does(d, op),
{
    assert(seq![op].drop_last() =~= Seq::<OpView>::empty());
    assert(does_all(d, seq![op].drop_last()) == Some(d));
}

spec fn pairs(jobs: Seq<JobView>) -> Seq<(Chars, EntryView)> {
    jobs.map_values(|j: JobView| (j.path, j.entry))
}

/// What is at hand between two paths.
spec fn desk_of(w: WindowView) -> Desk {
    Desk { asked: pairs(w.gets), sent: pairs(w.puts), ..empty_desk() }
}

spec fn seen(paths: Seq<Chars>, done: int, p: Chars) -> bool {
    exists|i: int| 0 <= i < done && i < paths.len() && #[trigger] paths[i] == p
}

/// The confirmations that wait are fewer than a message holds, for paths that
/// the round has dealt with.
spec fn tidy_acks(w: WindowView, gets: Seq<JobView>, paths: Seq<Chars>, done: int) -> bool {
    &&& w.acks.dom().finite()
    &&& w.acks.dom().len() < MANIFEST_CHUNK_FILES
    &&& forall|p: Chars| #[trigger]
        w.acks.dom().contains(p) ==> seen(paths, done, p) && !named(gets, p) && !named(w.puts, p)
}

/// What holds of the window between two paths.
spec fn tidy(w: WindowView, paths: Seq<Chars>, done: int) -> bool {
    &&& apart(w.puts)
    &&& apart(w.gets)
    &&& w.puts.len() == 0 || w.gets.len() == 0
    &&& w.puts.len() <= 4 && w.gets.len() <= 4
    &&& w.put_bytes == sizes(pairs(w.puts)) <= 8 * 1024 * 1024
    &&& w.get_bytes == sizes(pairs(w.gets)) <= 8 * 1024 * 1024
    &&& forall|k: int| 0 <= k < w.puts.len() ==> seen(paths, done, (#[trigger] w.puts[k]).path)
    &&& forall|k: int| 0 <= k < w.gets.len() ==> seen(paths, done, (#[trigger] w.gets[k]).path)
    &&& tidy_acks(w, w.gets, paths, done)
}

/// Confirming sent files in their order.
proof fn lemma_puts(w: WindowView, paths: Seq<Chars>, done: int, n: int)
    requires
        tidy(w, paths, done),
        w.gets.len() == 0,
        0 <= n <= w.puts.len(),
    ensures
        ({
            let (v, ops) = puts_drained(w, w.puts.take(n));
            &&& does_all(desk_of(w), ops) == Some(
                Desk { sent: pairs(w.puts.skip(n)), ..desk_of(w) },
            )
            &&& v.puts.len() == 0
            &&& v.put_bytes == 0
            &&& v.gets == w.gets
            &&& v.get_bytes == w.get_bytes
            &&& v.acks == w.acks
        }),
    decreases n,
{
    let some = w.puts.take(n);
    if n == 0 {
        assert(w.puts.skip(0) =~= w.puts);
    } else {
        lemma_puts(w, paths, done, n - 1);
        assert(some.drop_last() =~= w.puts.take(n - 1));
        let j = some.last();
        assert(j == w.puts[n - 1]);
        let before = puts_drained(w, w.puts.take(n - 1)).1;
        let a = OpView::Accept { path: j.path };
        let b = OpView::Base { path: j.path, hash: Some(j.entry.hash) };
        let c = OpView::Acknowledge { path: j.path, entry: j.entry };
        let ops = puts_drained(w, some).1;
        assert(ops =~= before.push(a).push(b).push(c).push(OpView::Persist));
        let d0 = Desk { sent: pairs(w.puts.skip(n - 1)), ..desk_of(w) };
        let d1 = Desk { sent: pairs(w.puts.skip(n)), ..desk_of(w) };
        assert(d0.sent.drop_first() =~= d1.sent);
        assert(d0.sent[0] == (j.path, j.entry));
        lemma_push(desk_of(w), before, a);
        assert(does(d0, a) == Some(d1));
        assert(!busy(d1, j.path)) by {
            if exists|k: int| 0 <= k < d1.sent.len() && (#[trigger] d1.sent[k]).0 == j.path {
                let k = choose|k: int| 0 <= k < d1.sent.len() && (#[trigger] d1.sent[k]).0 == j.path;
                assert(w.puts[n + k].path == j.path);
                assert(w.puts[n - 1].path == j.path);
            }
        }
        lemma_push(desk_of(w), before.push(a), b);
        lemma_push(desk_of(w), before.push(a).push(b), c);
        lemma_push(desk_of(w), before.push(a).push(b).push(c), OpView::Persist);
    }
}

/// What was asked for arrives in its order.
proof fn lemma_receipts(w: WindowView, n: int)
    requires
        w.puts.len() == 0,
        0 <= n <= w.gets.len(),
    ensures
        does_all(desk_of(w), receipts(w.gets.take(n))) == Some(
            Desk {
                asked: pairs(w.gets.skip(n)),
                arrived: pairs(w.gets.take(n)),
                ..desk_of(w)
            },
        ),
    decreases n,
{
    if n == 0 {
        assert(w.gets.skip(0) =~= w.gets);
        assert(pairs(w.gets.take(0)) =~= Seq::empty());
        assert(receipts(w.gets.take(0)) =~= Seq::empty());
    } else {
        lemma_receipts(w, n - 1);
        let j = w.gets[n - 1];
        let op = OpView::Receive { path: j.path, entry: j.entry };
        assert(receipts(w.gets.take(n)) =~= receipts(w.gets.take(n - 1)).push(op));
        lemma_push(desk_of(w), receipts(w.gets.take(n - 1)), op);
        assert(pairs(w.gets.skip(n - 1)).drop_first() =~= pairs(w.gets.skip(n)));
        assert(pairs(w.gets.take(n)) =~= pairs(w.gets.take(n - 1)).push((j.path, j.entry)));
        assert(pairs(w.gets.skip(n - 1))[0] == (j.path, j.entry));
    }
}

/// One more confirmation of a path that is not on its way.
proof fn lemma_acked(
    d: Desk,
    v: WindowView,
    gets: Seq<JobView>,
    paths: Seq<Chars>,
    done: int,
    path: Chars,
    entry: EntryView,
)
    requires
        tidy_acks(v, gets, paths, done),
        seen(paths, done, path),
        !named(gets, path),
        !named(v.puts, path),
        d.sent.len() == 0 || d.sent == pairs(v.puts),
        d.asked.len() == 0 || d.asked == pairs(gets),
        d.arrived.len() == 0 || d.arrived == pairs(gets),
    ensures
        does_all(d, acked(v, path, entry).1) == Some(d),
        tidy_acks(acked(v, path, entry).0, gets, paths, done),
        acked(v, path, entry).0.puts == v.puts,
        acked(v, path, entry).0.gets == v.gets,
        acked(v, path, entry).0.put_bytes == v.put_bytes,
        acked(v, path, entry).0.get_bytes == v.get_bytes,
{
    let all = v.acks.insert(path, entry);
    let (u, ops) = acked(v, path, entry);
    assert(all.dom() =~= v.acks.dom().insert(path));
    assert forall|p: Chars| #[trigger] all.dom().contains(p) implies !busy(d, p) by {
        lemma_not_busy(d, v, gets, p);
    }
    if all.dom().len() == MANIFEST_CHUNK_FILES {
        let op = OpView::SendAcks { entries: all };
        assert(ops =~= seq![op]);
        lemma_one(d, op);
        assert(u.acks.dom() =~= Set::empty());
    }
}

proof fn lemma_not_busy(d: Desk, v: WindowView, gets: Seq<JobView>, p: Chars)
    requires
        !named(gets, p),
        !named(v.puts, p),
        d.sent.len() == 0 || d.sent == pairs(v.puts),
        d.asked.len() == 0 || d.asked == pairs(gets),
        d.arrived.len() == 0 || d.arrived == pairs(gets),
    ensures
        !busy(d, p),
{
    if exists|i: int| 0 <= i < d.sent.len() && (#[trigger] d.sent[i]).0 == p {
        let k = choose|i: int| 0 <= i < d.sent.len() && (#[trigger] d.sent[i]).0 == p;
        assert(v.puts[k].path == p);
    }
    if exists|i: int| 0 <= i < d.asked.len() && (#[trigger] d.asked[i]).0 == p {
        let k = choose|i: int| 0 <= i < d.asked.len() && (#[trigger] d.asked[i]).0 == p;
        assert(gets[k].path == p);
    }
    if exists|i: int| 0 <= i < d.arrived.len() && (#[trigger] d.arrived[i]).0 == p {
        let k = choose|i: int| 0 <= i < d.arrived.len() && (#[trigger] d.arrived[i]).0 == p;
        assert(gets[k].path == p);
    }
}

/// Installing what arrived in its order.
proof fn lemma_installs(w: WindowView, paths: Seq<Chars>, done: int, n: int)
    requires
        tidy(w, paths, done),
        w.puts.len() == 0,
        0 <= n <= w.gets.len(),
    ensures
        ({
            let (v, ops) = gets_installed(w, w.gets.take(n));
            &&& does_all(Desk { arrived: pairs(w.gets), ..empty_desk() }, ops) == Some(
                Desk { arrived: pairs(w.gets.skip(n)), ..empty_desk() },
            )
            &&& v.gets.len() == 0
            &&& v.get_bytes == 0
            &&& v.puts == w.puts
            &&& v.put_bytes == w.put_bytes
            &&& tidy_acks(v, w.gets.skip(n), paths, done)
        }),
    decreases n,
{
    let start = Desk { arrived: pairs(w.gets), ..empty_desk() };
    let some = w.gets.take(n);
    if n == 0 {
        assert(w.gets.skip(0) =~= w.gets);
    } else {
        lemma_installs(w, paths, done, n - 1);
        assert(some.drop_last() =~= w.gets.take(n - 1));
        let j = some.last();
        assert(j == w.gets[n - 1]);
        let (v, before) = gets_installed(w, w.gets.take(n - 1));
        let d0 = Desk { arrived: pairs(w.gets.skip(n - 1)), ..empty_desk() };
        let d1 = Desk { arrived: pairs(w.gets.skip(n)), ..empty_desk() };
        assert(d0.arrived.drop_first() =~= d1.arrived);
        assert(d0.arrived[0] == (j.path, j.entry));
        let a = OpView::Install { path: j.path, expected: j.expected, entry: j.entry };
        assert(does(d0, a) == Some(d1));
        let rest = w.gets.skip(n);
        assert(!named(rest, j.path)) by {
            if named(rest, j.path) {
                let k = choose|k: int| 0 <= k < rest.len() && (#[trigger] rest[k]).path == j.path;
                assert(w.gets[n + k].path == w.gets[n - 1].path);
            }
        }
        assert(tidy_acks(v, rest, paths, done)) by {
            assert forall|p: Chars| #[trigger] v.acks.dom().contains(p) implies seen(paths, done, p)
                && !named(rest, p) && !named(v.puts, p) by {
                if named(rest, p) {
                    let k = choose|k: int| 0 <= k < rest.len() && (#[trigger] rest[k]).path == p;
                    assert(w.gets.skip(n - 1)[k + 1].path == p);
                }
            }
        }
        let (u, batch) = acked(v, j.path, j.entry);
        lemma_acked(d1, v, rest, paths, done, j.path, j.entry);
        lemma_not_busy(d1, v, rest, j.path);
        let b = OpView::Base { path: j.path, hash: Some(j.entry.hash) };
        let ops = gets_installed(w, some).1;
        assert(ops =~= (before.push(a) + batch).push(b).push(OpView::Persist));
        lemma_push(start, before, a);
        lemma_concat(start, before.push(a), batch);
        lemma_push(start, before.push(a) + batch, b);
        lemma_push(start, (before.push(a) + batch).push(b), OpView::Persist);
    }
}

proof fn lemma_drain_puts(w: WindowView, paths: Seq<Chars>, done: int)
    requires
        tidy(w, paths, done),
        w.gets.len() == 0,
    ensures
        ({
            let (v, ops) = puts_drained(w, w.puts);
            &&& does_all(desk_of(w), ops) == Some(desk_of(v))
            &&& tidy(v, paths, done)
            &&& v.puts.len() == 0
            &&& v.gets == w.gets
        }),
{
    lemma_puts(w, paths, done, w.puts.len() as int);
    assert(w.puts.take(w.puts.len() as int) =~= w.puts);
    let v = puts_drained(w, w.puts).0;
    assert(desk_of(v).sent =~= pairs(w.puts.skip(w.puts.len() as int)));
}

proof fn lemma_drain_gets(w: WindowView, paths: Seq<Chars>, done: int)
    requires
        tidy(w, paths, done),
        w.puts.len() == 0,
    ensures
        ({
            let (v, ops) = gets_drained(w);
            &&& does_all(desk_of(w), ops) == Some(desk_of(v))
            &&& tidy(v, paths, done)
            &&& v.gets.len() == 0
            &&& v.puts == w.puts
        }),
{
    let n = w.gets.len() as int;
    lemma_receipts(w, n);
    lemma_installs(w, paths, done, n);
    assert(w.gets.take(n) =~= w.gets);
    let (v, ops) = gets_installed(w, w.gets);
    let a = receipts(w.gets);
    assert(pairs(w.gets.skip(n)) =~= Seq::empty());
    assert(pairs(w.puts) =~= Seq::empty());
    assert(does_all(desk_of(w), a) == Some(Desk { arrived: pairs(w.gets), ..empty_desk() }));
    lemma_concat(desk_of(w), a, ops);
    assert(desk_of(v) =~= empty_desk());
    assert(v.gets =~= w.gets.skip(n));
}

proof fn lemma_turned(w: WindowView, action: Action, stop: bool, paths: Seq<Chars>, done: int)
    requires
        tidy(w, paths, done),
    ensures
        ({
            let (v, ops) = turned(w, action, stop);
            &&& does_all(desk_of(w), ops) == Some(desk_of(v))
            &&& tidy(v, paths, done)
            &&& action != Action::ToAndroid || stop ==> v.puts.len() == 0
            &&& action != Action::ToPc || stop ==> v.gets.len() == 0
        }),
{
    let none = Seq::<OpView>::empty();
    let (v, a) = if w.puts.len() > 0 && (action != Action::ToAndroid || stop) {
        lemma_drain_puts(w, paths, done);
        puts_drained(w, w.puts)
    } else {
        (w, none)
    };
    assert(does_all(desk_of(w), a) == Some(desk_of(v)));
    let (u, b) = if v.gets.len() > 0 && (action != Action::ToPc || stop) {
        lemma_drain_gets(v, paths, done);
        gets_drained(v)
    } else {
        (v, none)
    };
    assert(does_all(desk_of(v), b) == Some(desk_of(u)));
    lemma_concat(desk_of(w), a, b);
}

proof fn lemma_later(w: WindowView, paths: Seq<Chars>, done: int)
    requires
        tidy(w, paths, done),
        0 <= done < paths.len(),
        paths.no_duplicates(),
    ensures
        tidy(w, paths, done + 1),
        !named(w.puts, paths[done]),
        !named(w.gets, paths[done]),
        seen(paths, done + 1, paths[done]),
{
    assert forall|p: Chars| seen(paths, done, p) implies #[trigger] seen(paths, done + 1, p) && p
        != paths[done] by {
        let i = choose|i: int| 0 <= i < done && i < paths.len() && #[trigger] paths[i] == p;
        assert(paths[i] == p);
    }
    if named(w.puts, paths[done]) {
        let k = choose|k: int| 0 <= k < w.puts.len() && (#[trigger] w.puts[k]).path == paths[done];
        assert(seen(paths, done, w.puts[k].path));
        assert(seen(paths, done + 1, w.puts[k].path));
    }
    if named(w.gets, paths[done]) {
        let k = choose|k: int| 0 <= k < w.gets.len() && (#[trigger] w.gets[k]).path == paths[done];
        assert(seen(paths, done, w.gets[k].path));
        assert(seen(paths, done + 1, w.gets[k].path));
    }
    assert forall|k: int| 0 <= k < w.puts.len() implies seen(
        paths,
        done + 1,
        (#[trigger] w.puts[k]).path,
    ) by {
        assert(seen(paths, done, w.puts[k].path));
    }
    assert forall|k: int| 0 <= k < w.gets.len() implies seen(
        paths,
        done + 1,
        (#[trigger] w.gets[k]).path,
    ) by {
        assert(seen(paths, done, w.gets[k].path));
    }
}

proof fn lemma_agreed(w: WindowView, paths: Seq<Chars>, done: int, pc: Option<EntryView>)
    requires
        tidy(w, paths, done),
        0 <= done < paths.len(),
        paths.no_duplicates(),
        w.puts.len() == 0,
        w.gets.len() == 0,
    ensures
        ({
            let (v, ops) = agreed(w, paths[done], pc);
            &&& does_all(desk_of(w), ops) == Some(desk_of(v))
            &&& tidy(v, paths, done + 1)
        }),
{
    let here = paths[done];
    let d = desk_of(w);
    lemma_later(w, paths, done);
    lemma_not_busy(d, w, w.gets, here);
    let (v, ops) = agreed(w, here, pc);
    match pc {
        None => {
            lemma_one(d, OpView::Base { path: here, hash: None });
        },
        Some(entry) => {
            let batch = acked(w, here, entry).1;
            lemma_acked(d, w, w.gets, paths, done + 1, here, entry);
            let a = OpView::Acknowledge { path: here, entry };
            let b = OpView::Base { path: here, hash: Some(entry.hash) };
            assert(ops =~= (seq![a] + batch).push(b));
            lemma_one(d, a);
            lemma_concat(d, seq![a], batch);
            lemma_push(d, seq![a] + batch, b);
        },
    }
}

proof fn lemma_sent(
    w: WindowView,
    paths: Seq<Chars>,
    done: int,
    entry: EntryView,
    expected: Option<Chars>,
)
    requires
        tidy(w, paths, done),
        0 <= done < paths.len(),
        paths.no_duplicates(),
        w.gets.len() == 0,
    ensures
        ({
            let (v, ops) = sent(w, paths[done], entry, expected);
            &&& does_all(desk_of(w), ops) == Some(desk_of(v))
            &&& tidy(v, paths, done + 1)
        }),
{
    let here = paths[done];
    let none = Seq::<OpView>::empty();
    let (v, drained) = if w.puts.len() == MAX_IN_FLIGHT_FILES || w.put_bytes + entry.size
        > MAX_STAGED_BYTES {
        lemma_drain_puts(w, paths, done);
        puts_drained(w, w.puts)
    } else {
        (w, none)
    };
    lemma_later(v, paths, done);
    let start = desk_of(w);
    let d = desk_of(v);
    assert(does_all(start, drained) == Some(d));
    let snap = OpView::Snapshot { path: here, entry };
    let put = OpView::Put { path: here, expected, entry, staged: Staged::Local };
    let o1 = drained.push(snap);
    let o2 = o1.push(put);
    lemma_push(start, drained, snap);
    lemma_push(start, o1, put);
    let d2 = Desk { sent: d.sent.push((here, entry)), ..d };
    assert(does_all(start, o2) == Some(d2));
    let (u, ops) = sent(w, here, entry, expected);
    if entry.size > MAX_STAGED_BYTES {
        assert(v.puts.len() == 0);
        let a = OpView::Accept { path: here };
        let b = OpView::Base { path: here, hash: Some(entry.hash) };
        let c = OpView::Acknowledge { path: here, entry };
        assert(d2.sent.drop_first() =~= d.sent);
        lemma_push(start, o2, a);
        lemma_not_busy(d, v, v.gets, here);
        lemma_push(start, o2.push(a), b);
        lemma_push(start, o2.push(a).push(b), c);
        assert(ops =~= o2.push(a).push(b).push(c));
        assert(desk_of(u) =~= d);
    } else {
        assert(ops =~= o2);
        assert(pairs(u.puts) =~= d.sent.push((here, entry)));
        assert(pairs(u.puts).drop_last() =~= d.sent);
        assert(desk_of(u) =~= d2);
        assert(apart(u.puts)) by {
            assert forall|a: int, b: int|
                #![trigger u.puts[a], u.puts[b]]
                0 <= a < b < u.puts.len() implies u.puts[a].path != u.puts[b].path by {
                assert(u.puts[a] == v.puts[a]);
                if b < v.puts.len() {
                    assert(u.puts[b] == v.puts[b]);
                }
            }
        }
        assert forall|p: Chars| #[trigger] u.acks.dom().contains(p) implies seen(paths, done + 1, p)
            && !named(u.gets, p) && !named(u.puts, p) by {
            assert(v.acks.dom().contains(p));
            lemma_apart_from_next(v, paths, done, p);
            if named(u.puts, p) {
                let k = choose|k: int| 0 <= k < u.puts.len() && (#[trigger] u.puts[k]).path == p;
                if k < v.puts.len() {
                    assert(v.puts[k].path == p);
                }
            }
        }
        assert forall|k: int| 0 <= k < u.puts.len() implies seen(
            paths,
            done + 1,
            (#[trigger] u.puts[k]).path,
        ) by {
            if k < v.puts.len() {
                assert(u.puts[k] == v.puts[k]);
            }
        }
    }
}

proof fn lemma_apart_from_next(v: WindowView, paths: Seq<Chars>, done: int, p: Chars)
    requires
        seen(paths, done, p),
        0 <= done < paths.len(),
        paths.no_duplicates(),
    ensures
        p != paths[done],
{
    let i = choose|i: int| 0 <= i < done && i < paths.len() && #[trigger] paths[i] == p;
    assert(paths[i] == p);
}

proof fn lemma_fetched(
    w: WindowView,
    paths: Seq<Chars>,
    done: int,
    entry: EntryView,
    expected: Option<Chars>,
)
    requires
        tidy(w, paths, done),
        0 <= done < paths.len(),
        paths.no_duplicates(),
        w.puts.len() == 0,
    ensures
        ({
            let (v, ops) = fetched(w, paths[done], entry, expected);
            &&& does_all(desk_of(w), ops) == Some(desk_of(v))
            &&& tidy(v, paths, done + 1)
        }),
{
    let here = paths[done];
    let none = Seq::<OpView>::empty();
    let (v, drained) = if w.gets.len() == MAX_IN_FLIGHT_FILES || w.get_bytes + entry.size
        > MAX_STAGED_BYTES {
        lemma_drain_gets(w, paths, done);
        gets_drained(w)
    } else {
        (w, none)
    };
    lemma_later(v, paths, done);
    let start = desk_of(w);
    let d = desk_of(v);
    assert(does_all(start, drained) == Some(d));
    let get = OpView::Get { path: here, entry };
    let o1 = drained.push(get);
    lemma_push(start, drained, get);
    let d1 = Desk { asked: d.asked.push((here, entry)), ..d };
    let (u, ops) = fetched(w, here, entry, expected);
    if entry.size > MAX_STAGED_BYTES {
        assert(v.gets.len() == 0);
        let r = OpView::Receive { path: here, entry };
        let i = OpView::Install { path: here, expected, entry };
        let b = OpView::Base { path: here, hash: Some(entry.hash) };
        let d2 = Desk { asked: d.asked, arrived: d.arrived.push((here, entry)), ..d };
        assert(d1.asked.drop_first() =~= d.asked);
        lemma_push(start, o1, r);
        assert(does(d1, r) == Some(d2));
        lemma_push(start, o1.push(r), i);
        assert(d2.arrived.drop_first() =~= d.arrived);
        let o3 = o1.push(r).push(i);
        assert(does_all(start, o3) == Some(d));
        let batch = acked(v, here, entry).1;
        lemma_acked(d, v, v.gets, paths, done + 1, here, entry);
        lemma_concat(start, o3, batch);
        lemma_not_busy(d, v, v.gets, here);
        lemma_push(start, o3 + batch, b);
        assert(ops =~= (o3 + batch).push(b));
        assert(desk_of(u) =~= d);
    } else {
        assert(ops =~= o1);
        assert(pairs(u.gets) =~= d.asked.push((here, entry)));
        assert(pairs(u.gets).drop_last() =~= d.asked);
        assert(desk_of(u) =~= d1);
        assert(apart(u.gets)) by {
            assert forall|a: int, b: int|
                #![trigger u.gets[a], u.gets[b]]
                0 <= a < b < u.gets.len() implies u.gets[a].path != u.gets[b].path by {
                assert(u.gets[a] == v.gets[a]);
                if b < v.gets.len() {
                    assert(u.gets[b] == v.gets[b]);
                }
            }
        }
        assert forall|p: Chars| #[trigger] u.acks.dom().contains(p) implies seen(paths, done + 1, p)
            && !named(u.gets, p) && !named(u.puts, p) by {
            assert(v.acks.dom().contains(p));
            lemma_apart_from_next(v, paths, done, p);
            if named(u.gets, p) {
                let k = choose|k: int| 0 <= k < u.gets.len() && (#[trigger] u.gets[k]).path == p;
                if k < v.gets.len() {
                    assert(v.gets[k].path == p);
                }
            }
        }
        assert forall|k: int| 0 <= k < u.gets.len() implies seen(
            paths,
            done + 1,
            (#[trigger] u.gets[k]).path,
        ) by {
            if k < v.gets.len() {
                assert(u.gets[k] == v.gets[k]);
            }
        }
    }
}

proof fn lemma_parted(w: WindowView, path: Chars, pc: EntryView, android: EntryView)
    requires
        w.puts.len() == 0,
        w.gets.len() == 0,
    ensures
        does_all(desk_of(w), parted(w, path, pc, android).1) == Some(
            desk_of(parted(w, path, pc, android).0),
        ),
{
    let d = empty_desk();
    let aside = conflict_name(path, android.hash);
    let ops = parted(w, path, pc, android).1;
    assert(desk_of(w) =~= d);
    assert(desk_of(parted(w, path, pc, android).0) =~= d);
    assert(ops.len() == 12);
    assert forall|i: int| 0 <= i < ops.len() implies #[trigger] ops.take(i + 1) == ops.take(i).push(
        ops[i],
    ) by {
        assert(ops.take(i + 1) =~= ops.take(i).push(ops[i]));
    }
    assert(ops.take(0) =~= Seq::empty());
    assert(ops.take(12) =~= ops);
    let c = Some((path, pc));
    let a = seq![(path, android)];
    let none = Seq::<(Chars, EntryView)>::empty();
    let no = Seq::<(Chars, EntryView)>::empty();
    assert(none.push((path, android)) =~= a);
    assert(a.drop_first() =~= none);
    assert(no.push((aside, android)).drop_first() =~= no);
    assert(no.push((path, pc)).drop_first() =~= no);
    let d1 = Desk { copy: c, ..d };
    let d2 = Desk { asked: a, ..d1 };
    let d3 = Desk { arrived: a, ..d1 };
    let d4 = Desk { aside: true, ..d3 };
    let d5 = Desk { sent: no.push((aside, android)), ..d1 };
    let d7 = Desk { sent: no.push((path, pc)), ..d };
    assert(does_all(d, ops.take(0)) == Some(d));
    lemma_push(d, ops.take(0), ops[0]);
    assert(ops.take(0int + 1) == ops.take(0).push(ops[0]));
    assert(does_all(d, ops.take(1)) == Some(d1));
    lemma_push(d, ops.take(1), ops[1]);
    assert(ops.take(1int + 1) == ops.take(1).push(ops[1]));
    assert(does_all(d, ops.take(2)) == Some(d2));
    lemma_push(d, ops.take(2), ops[2]);
    assert(ops.take(2int + 1) == ops.take(2).push(ops[2]));
    assert(does_all(d, ops.take(3)) == Some(d3));
    lemma_push(d, ops.take(3), ops[3]);
    assert(ops.take(3int + 1) == ops.take(3).push(ops[3]));
    assert(does_all(d, ops.take(4)) == Some(d4));
    lemma_push(d, ops.take(4), ops[4]);
    assert(ops.take(4int + 1) == ops.take(4).push(ops[4]));
    assert(does_all(d, ops.take(5)) == Some(d5));
    lemma_push(d, ops.take(5), ops[5]);
    assert(ops.take(5int + 1) == ops.take(5).push(ops[5]));
    assert(does_all(d, ops.take(6)) == Some(d1));
    lemma_push(d, ops.take(6), ops[6]);
    assert(ops.take(6int + 1) == ops.take(6).push(ops[6]));
    assert(does_all(d, ops.take(7)) == Some(d7));
    lemma_push(d, ops.take(7), ops[7]);
    assert(ops.take(7int + 1) == ops.take(7).push(ops[7]));
    assert(does_all(d, ops.take(8)) == Some(d));
    assert(!busy(d, path) && !busy(d, aside));
    lemma_push(d, ops.take(8), ops[8]);
    assert(ops.take(8int + 1) == ops.take(8).push(ops[8]));
    lemma_push(d, ops.take(9), ops[9]);
    assert(ops.take(9int + 1) == ops.take(9).push(ops[9]));
    lemma_push(d, ops.take(10), ops[10]);
    assert(ops.take(10int + 1) == ops.take(10).push(ops[10]));
    lemma_push(d, ops.take(11), ops[11]);
    assert(ops.take(11int + 1) == ops.take(11).push(ops[11]));
}

/// The steps of one path can be done in their order.
proof fn lemma_step(r: RoundView, w: World, policy: Seq<Chars>)
    requires
        tidy(r.window, r.paths, r.index),
        0 <= r.index < r.paths.len(),
        r.paths.no_duplicates(),
    ensures
        ({
            let (next, ops) = next_step(r, w.state, policy);
            &&& does_all(desk_of(r.window), ops) == Some(desk_of(next.window))
            &&& tidy(next.window, r.paths, r.index + 1)
        }),
{
    let here = r.paths[r.index];
    let win = r.window;
    let (next, ops) = next_step(r, w.state, policy);
    let u = next.window;
    let start = desk_of(win);
    lemma_later(win, r.paths, r.index);
    if !ignored(policy, here, false) {
        let base = look(w.state.files, here);
        let pc = look(r.pc, here);
        let android = look(r.android, here);
        let action = decided(base, pc, android, r.remap);
        let stop = forbidden(r.mode, base, r.remap, action);
        let (v, drained) = turned(win, action, stop);
        lemma_turned(win, action, stop, r.paths, r.index);
        lemma_later(v, r.paths, r.index);
        let d = desk_of(v);
        let progress = OpView::Progress {
            path: here,
            index: r.index,
            total: r.paths.len() as int,
        };
        let shown = if action != Action::Nothing {
            seq![progress]
        } else {
            Seq::empty()
        };
        lemma_one(d, progress);
        lemma_concat(start, drained, shown);
        assert(does_all(start, drained + shown) == Some(d));
        if stop {
            let a = OpView::Mark { path: here };
            let o = drained + shown;
            lemma_push(start, o, a);
            lemma_push(start, o.push(a), OpView::Persist);
            assert(ops =~= o.push(a).push(OpView::Persist));
            assert(desk_of(u) =~= d);
        } else {
            let clear = OpView::Clear { path: here };
            let cleared = if action != Action::Conflict && !begins(here, "Rowd Conflicts/"@) {
                seq![clear]
            } else {
                Seq::empty()
            };
            lemma_one(d, clear);
            lemma_concat(start, drained + shown, cleared);
            let o = drained + shown + cleared;
            assert(does_all(start, o) == Some(d));
            let (s, acts) = acted(v, action, here, pc, android);
            match action {
                Action::Nothing => {
                    lemma_agreed(v, r.paths, r.index, pc);
                },
                Action::ToAndroid => {
                    lemma_sent(v, r.paths, r.index, pc->0, hash_of(android));
                },
                Action::ToPc => {
                    lemma_fetched(v, r.paths, r.index, android->0, hash_of(pc));
                },
                Action::Conflict => {
                    lemma_parted(v, here, pc->0, android->0);
                },
            }
            assert(tidy(s, r.paths, r.index + 1));
            lemma_concat(start, o, acts);
            lemma_one(desk_of(s), OpView::Persist);
            let stored = if new_base(base, action, pc, android) != base {
                seq![OpView::Persist]
            } else {
                Seq::empty()
            };
            lemma_concat(start, o + acts, stored);
            assert(ops == o + acts + stored);
        }
    }
}

proof fn lemma_rest(r: RoundView, w: World, policy: Seq<Chars>)
    requires
        tidy(r.window, r.paths, r.index),
        0 <= r.index <= r.paths.len(),
        r.paths.no_duplicates(),
    ensures
        does_all(desk_of(r.window), steps(r, w, policy)) == Some(empty_desk()),
    decreases r.paths.len() - r.index,
{
    let win = r.window;
    let start = desk_of(win);
    if r.index < r.paths.len() {
        lemma_step(r, w, policy);
        let (next, ops) = next_step(r, w.state, policy);
        lemma_rest(next, apply_all(w, ops), policy);
        lemma_concat(start, ops, steps(next, apply_all(w, ops), policy));
    } else {
        let (a, x) = puts_drained(win, win.puts);
        if win.gets.len() == 0 {
            lemma_drain_puts(win, r.paths, r.index);
        } else {
            assert(a.acks == win.acks && a.gets == win.gets && a.puts =~= win.puts);
            assert(x =~= Seq::empty());
        }
        assert(does_all(start, x) == Some(desk_of(a)));
        let (b, y) = gets_drained(a);
        lemma_drain_gets(a, r.paths, r.index);
        lemma_concat(start, x, y);
        assert(desk_of(b) =~= empty_desk());
        let z = flushed(b).1;
        let send = OpView::SendAcks { entries: b.acks };
        lemma_one(empty_desk(), send);
        assert(does_all(empty_desk(), z) == Some(empty_desk()));
        lemma_concat(start, x + y, z);
        let last = OpView::Progress {
            path: Seq::empty(),
            index: r.paths.len() as int,
            total: r.paths.len() as int,
        };
        lemma_one(empty_desk(), last);
        lemma_concat(start, x + y + z, seq![last]);
        assert(steps(r, w, policy) == x + y + z + seq![last]);
    }
}

/// Every round can be done in the order of its steps, and leaves nothing
/// behind. So whatever it installs arrived before, and no other install used
/// it up; whatever it sends was copied before, or arrived; every file that it
/// asks for arrives once; every file that it sends is confirmed once; and
/// nothing is agreed on or confirmed while it is on its way.
pub proof fn law_steps_are_in_order(r: RoundView, w: World, policy: Seq<Chars>)
    requires
        r.index == 0,
        r.window == empty_window(),
        r.paths.no_duplicates(),
    ensures
        does_all(empty_desk(), steps(r, w, policy)) == Some(empty_desk()),
{
    assert(tidy(r.window, r.paths, 0));
    assert(desk_of(r.window) =~= empty_desk());
    lemma_rest(r, w, policy);
}

/// How often a step occurs.
pub open spec fn times(ops: Seq<OpView>, op: OpView) -> nat
    decreases ops.len(),
{
    if ops.len() == 0 {
        0
    } else {
        times(ops.drop_last(), op) + if ops.last() == op {
            1nat
        } else {
            0
        }
    }
}

/// How often a file occurs among those at hand.
spec fn listed(s: Seq<(Chars, EntryView)>, f: (Chars, EntryView)) -> nat
    decreases s.len(),
{
    if s.len() == 0 {
        0
    } else {
        listed(s.drop_last(), f) + if s.last() == f {
            1nat
        } else {
            0
        }
    }
}

proof fn lemma_listed_first(s: Seq<(Chars, EntryView)>, f: (Chars, EntryView))
    requires
        s.len() > 0,
    ensures
        listed(s, f) == listed(s.drop_first(), f) + if s[0] == f {
            1nat
        } else {
            0
        },
    decreases s.len(),
{
    if s.len() == 1 {
        assert(s.drop_first() =~= Seq::empty());
        assert(s.drop_last() =~= Seq::empty());
    } else {
        lemma_listed_first(s.drop_last(), f);
        assert(s.drop_last().drop_first() =~= s.drop_first().drop_last());
    }
}

proof fn lemma_asked_for(ops: Seq<OpView>, path: Chars, entry: EntryView)
    requires
        does_all(empty_desk(), ops) is Some,
    ensures
        ({
            let d = does_all(empty_desk(), ops)->0;
            times(ops, OpView::Get { path, entry }) == times(ops, OpView::Receive { path, entry })
                + listed(d.asked, (path, entry))
        }),
    decreases ops.len(),
{
    if ops.len() > 0 {
        let less = ops.drop_last();
        lemma_asked_for(less, path, entry);
        let d = does_all(empty_desk(), less)->0;
        let op = ops.last();
        if op is Get {
            let f = (op->Get_path, op->Get_entry);
            assert(d.asked.push(f).drop_last() =~= d.asked);
        }
        if op is Receive {
            lemma_listed_first(d.asked, (path, entry));
        }
    }
}

/// What a round asks for arrives, as often as it was asked for: after any
/// number of steps no more has arrived than was asked for, and at the end just
/// as much.
pub proof fn law_what_is_asked_for_arrives(
    r: RoundView,
    w: World,
    policy: Seq<Chars>,
    path: Chars,
    entry: EntryView,
    n: int,
)
    requires
        r.index == 0,
        r.window == empty_window(),
        r.paths.no_duplicates(),
        0 <= n <= steps(r, w, policy).len(),
    ensures
        ({
            let ops = steps(r, w, policy);
            let get = OpView::Get { path, entry };
            let receive = OpView::Receive { path, entry };
            &&& times(ops.take(n), receive) <= times(ops.take(n), get)
            &&& times(ops, receive) == times(ops, get)
        }),
{
    let ops = steps(r, w, policy);
    law_steps_are_in_order(r, w, policy);
    lemma_asked_for(ops, path, entry);
    assert(ops =~= ops.take(n) + ops.skip(n));
    lemma_possible(empty_desk(), ops.take(n), ops.skip(n));
    lemma_asked_for(ops.take(n), path, entry);
}

proof fn lemma_possible(d: Desk, a: Seq<OpView>, b: Seq<OpView>)
    requires
        does_all(d, a + b) is Some,
    ensures
        does_all(d, a) is Some,
    decreases b.len(),
{
    if b.len() == 0 {
        assert(a + b =~= a);
    } else {
        assert((a + b).drop_last() =~= a + b.drop_last());
        lemma_possible(d, a, b.drop_last());
    }
}

/// How many steps install this content.
pub open spec fn installs_of(ops: Seq<OpView>, entry: EntryView) -> nat
    decreases ops.len(),
{
    if ops.len() == 0 {
        0
    } else {
        installs_of(ops.drop_last(), entry) + if ops.last() is Install && ops.last()->Install_entry
            == entry {
            1nat
        } else {
            0
        }
    }
}

/// How many steps receive this content.
pub open spec fn receipts_of(ops: Seq<OpView>, entry: EntryView) -> nat
    decreases ops.len(),
{
    if ops.len() == 0 {
        0
    } else {
        receipts_of(ops.drop_last(), entry) + if ops.last() is Receive && ops.last()->Receive_entry
            == entry {
            1nat
        } else {
            0
        }
    }
}

/// How many files at hand have this content.
spec fn held_of(s: Seq<(Chars, EntryView)>, entry: EntryView) -> nat
    decreases s.len(),
{
    if s.len() == 0 {
        0
    } else {
        held_of(s.drop_last(), entry) + if s.last().1 == entry {
            1nat
        } else {
            0
        }
    }
}

proof fn lemma_held_first(s: Seq<(Chars, EntryView)>, entry: EntryView)
    requires
        s.len() > 0,
    ensures
        held_of(s, entry) == held_of(s.drop_first(), entry) + if s[0].1 == entry {
            1nat
        } else {
            0
        },
    decreases s.len(),
{
    if s.len() == 1 {
        assert(s.drop_first() =~= Seq::empty());
        assert(s.drop_last() =~= Seq::empty());
    } else {
        lemma_held_first(s.drop_last(), entry);
        assert(s.drop_last().drop_first() =~= s.drop_first().drop_last());
    }
}

proof fn lemma_installed(ops: Seq<OpView>, entry: EntryView)
    requires
        does_all(empty_desk(), ops) is Some,
    ensures
        ({
            let d = does_all(empty_desk(), ops)->0;
            &&& d.aside ==> d.arrived.len() > 0
            &&& receipts_of(ops, entry) + (if d.aside && d.arrived[0].1 == entry {
                1nat
            } else {
                0
            }) == installs_of(ops, entry) + held_of(d.arrived, entry)
        }),
    decreases ops.len(),
{
    if ops.len() > 0 {
        let less = ops.drop_last();
        lemma_installed(less, entry);
        let d = does_all(empty_desk(), less)->0;
        let op = ops.last();
        if d.arrived.len() > 0 {
            lemma_held_first(d.arrived, entry);
        }
        if op is Receive {
            let f = (op->Receive_path, op->Receive_entry);
            assert(d.arrived.push(f).drop_last() =~= d.arrived);
        }
    }
}

/// What a round installs has arrived before, once for each install: after any
/// number of steps no content was installed more often than it arrived, and at
/// the end each was installed as often as it arrived.
pub proof fn law_what_is_installed_has_arrived(
    r: RoundView,
    w: World,
    policy: Seq<Chars>,
    entry: EntryView,
    n: int,
)
    requires
        r.index == 0,
        r.window == empty_window(),
        r.paths.no_duplicates(),
        0 <= n <= steps(r, w, policy).len(),
    ensures
        ({
            let ops = steps(r, w, policy);
            &&& installs_of(ops.take(n), entry) <= receipts_of(ops.take(n), entry)
            &&& installs_of(ops, entry) == receipts_of(ops, entry)
        }),
{
    let ops = steps(r, w, policy);
    law_steps_are_in_order(r, w, policy);
    lemma_installed(ops, entry);
    assert(ops =~= ops.take(n) + ops.skip(n));
    lemma_possible(empty_desk(), ops.take(n), ops.skip(n));
    lemma_installed(ops.take(n), entry);
    let d = does_all(empty_desk(), ops.take(n))->0;
    if d.arrived.len() > 0 {
        lemma_held_first(d.arrived, entry);
    }
}

/// The agreed digests as they were kept last.
pub open spec fn kept_files(w: World, ops: Seq<OpView>) -> Map<Chars, Chars>
    decreases ops.len(),
{
    if ops.len() == 0 {
        w.state.files
    } else if ops.last() is Persist {
        apply_all(w, ops).state.files
    } else {
        kept_files(w, ops.drop_last())
    }
}

/// After these steps everything that was agreed on is kept, if it was before.
spec fn keeps(w: World, ops: Seq<OpView>) -> bool {
    kept_files(w, ops) == apply_all(w, ops).state.files
}

proof fn lemma_kept_concat(w: World, a: Seq<OpView>, b: Seq<OpView>)
    requires
        keeps(w, a),
    ensures
        kept_files(w, a + b) == kept_files(apply_all(w, a), b),
    decreases b.len(),
{
    if b.len() == 0 {
        assert(a + b =~= a);
    } else {
        lemma_kept_concat(w, a, b.drop_last());
        assert((a + b).drop_last() =~= a + b.drop_last());
        assert((a + b).last() == b.last());
        crate::convergence::lemma_concat(w, a, b);
    }
}

proof fn lemma_keeps_concat(w: World, a: Seq<OpView>, b: Seq<OpView>)
    requires
        keeps(w, a),
        keeps(apply_all(w, a), b),
    ensures
        keeps(w, a + b),
{
    lemma_kept_concat(w, a, b);
    crate::convergence::lemma_concat(w, a, b);
}

/// Steps that agree on nothing need not keep anything.
proof fn lemma_keeps_idle(w: World, ops: Seq<OpView>)
    requires
        forall|i: int| 0 <= i < ops.len() ==> !(#[trigger] ops[i] is Base),
    ensures
        keeps(w, ops),
        apply_all(w, ops).state.files == w.state.files,
    decreases ops.len(),
{
    if ops.len() > 0 {
        let less = ops.drop_last();
        assert forall|i: int| 0 <= i < less.len() implies !(#[trigger] less[i] is Base) by {
            assert(less[i] == ops[i]);
        }
        lemma_keeps_idle(w, less);
        assert(!(ops[ops.len() - 1] is Base));
    }
}

/// Steps that end with keeping keep everything.
proof fn lemma_keeps_last(w: World, ops: Seq<OpView>)
    requires
        ops.len() > 0 ==> ops.last() is Persist,
    ensures
        keeps(w, ops),
{
}

proof fn lemma_puts_keep(w: World, v: WindowView, jobs: Seq<JobView>)
    ensures
        keeps(w, puts_drained(v, jobs).1),
{
    lemma_keeps_last(w, puts_drained(v, jobs).1);
}

proof fn lemma_gets_keep(w: World, v: WindowView)
    ensures
        keeps(w, gets_drained(v).1),
{
    let a = receipts(v.gets);
    let b = gets_installed(v, v.gets).1;
    if v.gets.len() == 0 {
        assert(a + b =~= Seq::empty());
    } else {
        assert(b.last() is Persist);
        assert((a + b).last() == b.last());
    }
    lemma_keeps_last(w, a + b);
}

/// Turning the window keeps what was agreed on, and leaves the next path as it
/// was.
proof fn lemma_turned_keeps(
    w: World,
    win: WindowView,
    action: Action,
    stop: bool,
    paths: Seq<Chars>,
    done: int,
)
    requires
        tidy(win, paths, done),
        0 <= done < paths.len(),
        paths.no_duplicates(),
    ensures
        keeps(w, turned(win, action, stop).1),
        look(apply_all(w, turned(win, action, stop).1).state.files, paths[done]) == look(
            w.state.files,
            paths[done],
        ),
{
    let none = Seq::<OpView>::empty();
    let here = paths[done];
    lemma_later(win, paths, done);
    let (v, a) = if win.puts.len() > 0 && (action != Action::ToAndroid || stop) {
        puts_drained(win, win.puts)
    } else {
        (win, none)
    };
    crate::convergence::lemma_puts(win, win.puts, w);
    lemma_puts_keep(w, win, win.puts);
    lemma_keeps_last(w, none);
    let t = apply_all(w, a);
    assert(look(t.state.files, here) == look(w.state.files, here));
    assert(v.gets == win.gets);
    let b = if v.gets.len() > 0 && (action != Action::ToPc || stop) {
        gets_drained(v).1
    } else {
        none
    };
    crate::convergence::lemma_gets(v, t);
    lemma_gets_keep(t, v);
    lemma_keeps_last(t, none);
    lemma_keeps_concat(w, a, b);
    crate::convergence::lemma_concat(w, a, b);
}

proof fn lemma_push_base(w: World, ops: Seq<OpView>, path: Chars, hash: Option<Chars>)
    ensures
        apply_all(w, ops.push(OpView::Base { path, hash })).state.files == match hash {
            Some(h) => apply_all(w, ops).state.files.insert(path, h),
            None => apply_all(w, ops).state.files.remove(path),
        },
        kept_files(w, ops.push(OpView::Base { path, hash })) == kept_files(w, ops),
{
    crate::convergence::lemma_push(w, ops, OpView::Base { path, hash });
    assert(ops.push(OpView::Base { path, hash }).drop_last() =~= ops);
}

/// What an action agrees on is kept, or was agreed on before.
proof fn lemma_acts_keep(
    w: World,
    v: WindowView,
    action: Action,
    paths: Seq<Chars>,
    done: int,
    pc: Option<EntryView>,
    android: Option<EntryView>,
)
    requires
        tidy(v, paths, done),
        0 <= done < paths.len(),
        paths.no_duplicates(),
        action == Action::Nothing ==> hash_of(pc) == hash_of(android),
        action == Action::ToAndroid || action == Action::Conflict ==> pc is Some,
        action == Action::ToPc || action == Action::Conflict ==> android is Some,
        action == Action::Conflict ==> look(w.state.files, paths[done]) != hash_of(pc),
        action == Action::ToAndroid ==> v.gets.len() == 0,
        action == Action::ToPc ==> v.puts.len() == 0,
    ensures
        ({
            let here = paths[done];
            let base = look(w.state.files, here);
            let acts = acted(v, action, here, pc, android).1;
            let stored = if new_base(base, action, pc, android) != base {
                seq![OpView::Persist]
            } else {
                Seq::empty()
            };
            keeps(w, acts + stored)
        }),
{
    let none = Seq::<OpView>::empty();
    let here = paths[done];
    let base = look(w.state.files, here);
    let (u, acts) = acted(v, action, here, pc, android);
    let stored = if new_base(base, action, pc, android) != base {
        seq![OpView::Persist]
    } else {
        none
    };
    if new_base(base, action, pc, android) != base {
        assert((acts + stored).last() is Persist);
        lemma_keeps_last(w, acts + stored);
    } else {
        assert(acts + stored =~= acts);
        lemma_later(v, paths, done);
        match action {
            Action::Nothing => {
                match pc {
                    None => {
                        assert(acts =~= none.push(OpView::Base { path: here, hash: None }));
                        lemma_push_base(w, none, here, None);
                        assert(w.state.files.remove(here) =~= w.state.files);
                    },
                    Some(entry) => {
                        let batch = acked(v, here, entry).1;
                        let first = seq![OpView::Acknowledge { path: here, entry }] + batch;
                        assert(acts =~= first.push(
                            OpView::Base { path: here, hash: Some(entry.hash) },
                        ));
                        lemma_keeps_idle(w, first);
                        lemma_push_base(w, first, here, Some(entry.hash));
                        assert(w.state.files.insert(here, entry.hash) =~= w.state.files);
                    },
                }
            },
            Action::ToAndroid => {
                let entry = pc->0;
                let (x, drained) = if v.puts.len() == MAX_IN_FLIGHT_FILES || v.put_bytes
                    + entry.size > MAX_STAGED_BYTES {
                    puts_drained(v, v.puts)
                } else {
                    (v, none)
                };
                lemma_puts_keep(w, v, v.puts);
                lemma_keeps_last(w, none);
                crate::convergence::lemma_puts(v, v.puts, w);
                let t = apply_all(w, drained);
                assert(look(t.state.files, here) == base);
                let head = seq![
                    OpView::Snapshot { path: here, entry },
                    OpView::Put {
                        path: here,
                        expected: hash_of(android),
                        entry,
                        staged: Staged::Local,
                    },
                ];
                lemma_keeps_idle(t, head);
                if entry.size > MAX_STAGED_BYTES {
                    let o = head.push(OpView::Accept { path: here });
                    let b = OpView::Base { path: here, hash: Some(entry.hash) };
                    let c = OpView::Acknowledge { path: here, entry };
                    lemma_keeps_idle(t, o);
                    lemma_push_base(t, o, here, Some(entry.hash));
                    assert(t.state.files.insert(here, entry.hash) =~= t.state.files);
                    lemma_keeps_idle(apply_all(t, o.push(b)), seq![c]);
                    lemma_keeps_concat(t, o.push(b), seq![c]);
                    let body = o.push(b) + seq![c];
                    lemma_keeps_concat(w, drained, body);
                    assert(acts =~= drained + body);
                } else {
                    lemma_keeps_concat(w, drained, head);
                    assert(acts =~= drained + head);
                }
            },
            Action::ToPc => {
                let entry = android->0;
                let (x, drained) = if v.gets.len() == MAX_IN_FLIGHT_FILES || v.get_bytes
                    + entry.size > MAX_STAGED_BYTES {
                    gets_drained(v)
                } else {
                    (v, none)
                };
                lemma_gets_keep(w, v);
                lemma_keeps_last(w, none);
                crate::convergence::lemma_gets(v, w);
                let t = apply_all(w, drained);
                assert(look(t.state.files, here) == base);
                let head = seq![OpView::Get { path: here, entry }];
                lemma_keeps_idle(t, head);
                if entry.size > MAX_STAGED_BYTES {
                    let batch = acked(x, here, entry).1;
                    let o = head + seq![
                        OpView::Receive { path: here, entry },
                        OpView::Install { path: here, expected: hash_of(pc), entry },
                    ] + batch;
                    let b = OpView::Base { path: here, hash: Some(entry.hash) };
                    lemma_keeps_idle(t, o);
                    lemma_push_base(t, o, here, Some(entry.hash));
                    assert(t.state.files.insert(here, entry.hash) =~= t.state.files);
                    lemma_keeps_concat(w, drained, o.push(b));
                    assert(acts =~= drained + o.push(b));
                } else {
                    lemma_keeps_concat(w, drained, head);
                    assert(acts =~= drained + head);
                }
            },
            Action::Conflict => {},
        }
    }
}

proof fn lemma_step_keeps(r: RoundView, w: World, policy: Seq<Chars>)
    requires
        tidy(r.window, r.paths, r.index),
        0 <= r.index < r.paths.len(),
        r.paths.no_duplicates(),
    ensures
        keeps(w, next_step(r, w.state, policy).1),
{
    let none = Seq::<OpView>::empty();
    let here = r.paths[r.index];
    let win = r.window;
    let ops = next_step(r, w.state, policy).1;
    if ignored(policy, here, false) {
        lemma_keeps_last(w, none);
    } else {
        let base = look(w.state.files, here);
        let pc = look(r.pc, here);
        let android = look(r.android, here);
        let action = decided(base, pc, android, r.remap);
        let stop = forbidden(r.mode, base, r.remap, action);
        let (v, drained) = turned(win, action, stop);
        lemma_turned(win, action, stop, r.paths, r.index);
        lemma_turned_keeps(w, win, action, stop, r.paths, r.index);
        let shown = if action != Action::Nothing {
            seq![OpView::Progress { path: here, index: r.index, total: r.paths.len() as int }]
        } else {
            none
        };
        if stop {
            let all = drained + shown + seq![OpView::Mark { path: here }, OpView::Persist];
            assert(ops == all);
            assert(all.last() is Persist);
            lemma_keeps_last(w, all);
        } else {
            let cleared = if action != Action::Conflict && !begins(here, "Rowd Conflicts/"@) {
                seq![OpView::Clear { path: here }]
            } else {
                none
            };
            let s0 = apply_all(w, drained);
            lemma_keeps_idle(s0, shown + cleared);
            lemma_keeps_concat(w, drained, shown + cleared);
            let most = drained + (shown + cleared);
            let t = apply_all(w, most);
            crate::convergence::lemma_concat(w, drained, shown + cleared);
            assert(t.state.files == s0.state.files);
            lemma_acts_keep(t, v, action, r.paths, r.index, pc, android);
            let acts = acted(v, action, here, pc, android).1;
            let stored = if new_base(base, action, pc, android) != base {
                seq![OpView::Persist]
            } else {
                none
            };
            lemma_keeps_concat(w, most, acts + stored);
            assert(ops =~= most + (acts + stored));
        }
    }
}

proof fn lemma_rest_keeps(r: RoundView, w: World, policy: Seq<Chars>)
    requires
        tidy(r.window, r.paths, r.index),
        0 <= r.index <= r.paths.len(),
        r.paths.no_duplicates(),
    ensures
        keeps(w, steps(r, w, policy)),
    decreases r.paths.len() - r.index,
{
    let win = r.window;
    if r.index < r.paths.len() {
        lemma_step(r, w, policy);
        lemma_step_keeps(r, w, policy);
        let (next, ops) = next_step(r, w.state, policy);
        let t = apply_all(w, ops);
        lemma_rest_keeps(next, t, policy);
        lemma_keeps_concat(w, ops, steps(next, t, policy));
    } else {
        let (a, x) = puts_drained(win, win.puts);
        lemma_puts_keep(w, win, win.puts);
        let w1 = apply_all(w, x);
        let (b, y) = gets_drained(a);
        lemma_gets_keep(w1, a);
        lemma_keeps_concat(w, x, y);
        let z = flushed(b).1;
        let last = seq![
            OpView::Progress {
                path: Seq::empty(),
                index: r.paths.len() as int,
                total: r.paths.len() as int,
            },
        ];
        lemma_keeps_idle(apply_all(w, x + y), z + last);
        lemma_keeps_concat(w, x + y, z + last);
        assert(steps(r, w, policy) =~= x + y + (z + last));
    }
}

/// What a round agreed on is kept: the digests that were kept last are those
/// that hold at its end.
pub proof fn law_agreements_are_kept(r: RoundView, w: World, policy: Seq<Chars>)
    requires
        r.index == 0,
        r.window == empty_window(),
        r.paths.no_duplicates(),
    ensures
        kept_files(w, steps(r, w, policy)) == run(r, w, policy).state.files,
{
    assert(tidy(r.window, r.paths, 0));
    lemma_rest_keeps(r, w, policy);
    crate::convergence::law_round_is_its_steps(r, w, policy);
}

} // verus!
