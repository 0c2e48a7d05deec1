//! The counters of a round: they say what its steps did.

use crate::convergence::{apply_all, steps, World};
use crate::ignore::ignored;
use crate::journal::look;
use crate::model::{Action, EntryView};
use crate::storage::hash_of;
use crate::sync::{
    acked, acted, agreed, decided, empty_window, fetched, flushed, forbidden, gets_drained,
    gets_installed, last_steps, new_base, next_step, parted, puts_drained,
    receipts, sent, turned, JobView, OpView, RoundView, Staged, Tally, WindowView,
    MAX_IN_FLIGHT_FILES, MAX_STAGED_BYTES,
};
use crate::text::{begins, Chars};
use vstd::prelude::*;

verus! {

/// What steps amount to.
#[verifier::ext_equal]
pub struct Account {
    /// The files that were written on one of the sides.
    pub files: int,
    /// The size of those files.
    pub bytes: int,
    /// The paths that were noted as conflicts.
    pub conflicts: int,
    /// The messages that were exchanged, confirmations included.
    pub messages: int,
    /// The messages that confirm files.
    pub acks: int,
    /// The files that they confirm.
    pub confirmed: int,
}

/// Nothing.
pub open spec fn nothing() -> Account {
    Account { files: 0, bytes: 0, conflicts: 0, messages: 0, acks: 0, confirmed: 0 }
}

/// Two amounts together.
pub open spec fn plus(a: Account, b: Account) -> Account {
    Account {
        files: a.files + b.files,
        bytes: a.bytes + b.bytes,
        conflicts: a.conflicts + b.conflicts,
        messages: a.messages + b.messages,
        acks: a.acks + b.acks,
        confirmed: a.confirmed + b.confirmed,
    }
}

/// What one step amounts to. A file costs a message to send it or to ask for
/// it, and a message that answers.
pub open spec fn amount(op: OpView) -> Account {
    match op {
        OpView::Put { path, expected, entry, staged } => Account {
            files: 1,
            bytes: entry.size as int,
            messages: 1,
            ..nothing()
        },
        OpView::Install { path, expected, entry } => Account {
            files: 1,
            bytes: entry.size as int,
            ..nothing()
        },
        OpView::Accept { path } => Account { messages: 1, ..nothing() },
        OpView::Get { path, entry } => Account { messages: 1, ..nothing() },
        OpView::Receive { path, entry } => Account { messages: 1, ..nothing() },
        OpView::Mark { path } => Account { conflicts: 1, ..nothing() },
        OpView::SendAcks { entries } => Account {
            messages: 1,
            acks: 1,
            confirmed: entries.dom().len() as int,
            ..nothing()
        },
        _ => nothing(),
    }
}

/// What steps amount to together.
pub open spec fn account(ops: Seq<OpView>) -> Account
    decreases ops.len(),
{
    if ops.len() == 0 {
        nothing()
    } else {
        plus(account(ops.drop_last()), amount(ops.last()))
    }
}

/// The counters can hold an amount.
pub open spec fn countable(a: Account) -> bool {
    &&& a.files <= usize::MAX
    &&& a.conflicts <= usize::MAX
    &&& a.bytes <= u64::MAX
    &&& a.messages <= u64::MAX
    &&& a.acks <= u64::MAX
    &&& a.confirmed <= u64::MAX
}

/// A round once all its steps are done.
pub open spec fn finished(r: RoundView, w: World, policy: Seq<Chars>) -> RoundView
    decreases r.paths.len() - r.index,
{
    if r.index < 0 || r.index >= r.paths.len() {
        last_steps(r).0
    } else {
        let (next, ops) = next_step(r, w.state, policy);
        finished(next, apply_all(w, ops), policy)
    }
}

proof fn lemma_push(ops: Seq<OpView>, op: OpView)
    ensures
        account(ops.push(op)) == plus(account(ops), amount(op)),
{
    assert(ops.push(op).drop_last() =~= ops);
}

proof fn lemma_concat(a: Seq<OpView>, b: Seq<OpView>)
    ensures
        account(a + b) == plus(account(a), account(b)),
    decreases b.len(),
{
    if b.len() == 0 {
        assert(a + b =~= a);
    } else {
        lemma_concat(a, b.drop_last());
        assert((a + b).drop_last() =~= a + b.drop_last());
        assert((a + b).last() == b.last());
    }
}

proof fn lemma_positive(ops: Seq<OpView>)
    ensures
        ({
            let a = account(ops);
            &&& 0 <= a.files && 0 <= a.bytes && 0 <= a.conflicts
            &&& 0 <= a.messages && 0 <= a.acks && 0 <= a.confirmed
        }),
    decreases ops.len(),
{
    if ops.len() > 0 {
        lemma_positive(ops.drop_last());
    }
}

spec fn load(jobs: Seq<JobView>) -> int
    decreases jobs.len(),
{
    if jobs.len() == 0 {
        0
    } else {
        load(jobs.drop_last()) + jobs.last().entry.size
    }
}

proof fn lemma_load_positive(jobs: Seq<JobView>)
    ensures
        0 <= load(jobs),
    decreases jobs.len(),
{
    if jobs.len() > 0 {
        lemma_load_positive(jobs.drop_last());
    }
}

/// What was done, as the counters and the files on their way tell it.
spec fn tells(t: Tally, puts: Seq<JobView>, gets: Seq<JobView>) -> Account {
    Account {
        files: t.transferred + puts.len(),
        bytes: t.bytes_transferred + load(puts),
        conflicts: t.conflicts as int,
        messages: t.control_messages + puts.len() + gets.len(),
        acks: t.ack_messages as int,
        confirmed: t.ack_entries as int,
    }
}

spec fn told(w: WindowView) -> Account {
    tells(w.tally, w.puts, w.gets)
}

/// The counters grew by what the steps amount to, if they could hold it.
spec fn counts(w: WindowView, v: WindowView, ops: Seq<OpView>) -> bool {
    countable(plus(told(w), account(ops))) ==> told(v) == plus(told(w), account(ops))
}

proof fn lemma_then(
    w: WindowView,
    v: WindowView,
    u: WindowView,
    a: Seq<OpView>,
    b: Seq<OpView>,
)
    requires
        counts(w, v, a),
        counts(v, u, b),
    ensures
        counts(w, u, a + b),
{
    lemma_concat(a, b);
    lemma_positive(b);
    if countable(plus(told(w), account(a + b))) {
        assert(countable(plus(told(w), account(a))));
        assert(plus(plus(told(w), account(a)), account(b)) == plus(told(w), account(a + b)));
    }
}

proof fn lemma_still(w: WindowView)
    ensures
        counts(w, w, Seq::<OpView>::empty()),
{
}

proof fn lemma_puts(w: WindowView, n: int)
    requires
        0 <= n <= w.puts.len(),
        countable(
            Account {
                files: w.tally.transferred + n,
                bytes: w.tally.bytes_transferred + load(w.puts.take(n)),
                messages: w.tally.control_messages + 2 * n,
                ..nothing()
            },
        ),
    ensures
        ({
            let (v, ops) = puts_drained(w, w.puts.take(n));
            &&& v.puts.len() == 0
            &&& v.gets == w.gets
            &&& v.tally == (Tally {
                transferred: (w.tally.transferred + n) as usize,
                bytes_transferred: (w.tally.bytes_transferred + load(w.puts.take(n))) as u64,
                control_messages: (w.tally.control_messages + 2 * n) as u64,
                ..w.tally
            })
        }),
    decreases n,
{
    if n > 0 {
        let some = w.puts.take(n);
        assert(some.drop_last() =~= w.puts.take(n - 1));
        lemma_load_positive(some.drop_last());
        lemma_puts(w, n - 1);
    } else {
        assert(w.puts.take(0) =~= Seq::empty());
    }
}

proof fn lemma_puts_account(w: WindowView, some: Seq<JobView>)
    ensures
        account(puts_drained(w, some).1) == (Account { messages: some.len() as int, ..nothing() }),
    decreases some.len(),
{
    if some.len() > 0 {
        let less = some.drop_last();
        lemma_puts_account(w, less);
        let before = puts_drained(w, less).1;
        let j = some.last();
        let a = OpView::Accept { path: j.path };
        let b = OpView::Base { path: j.path, hash: Some(j.entry.hash) };
        let c = OpView::Acknowledge { path: j.path, entry: j.entry };
        lemma_push(before, a);
        lemma_push(before.push(a), b);
        lemma_push(before.push(a).push(b), c);
        lemma_push(before.push(a).push(b).push(c), OpView::Persist);
        assert(puts_drained(w, some).1 =~= before.push(a).push(b).push(c).push(OpView::Persist));
    }
}

proof fn lemma_drain_puts(w: WindowView)
    ensures
        counts(w, puts_drained(w, w.puts).0, puts_drained(w, w.puts).1),
        puts_drained(w, w.puts).0.puts.len() == 0,
        puts_drained(w, w.puts).0.gets == w.gets,
{
    let n = w.puts.len() as int;
    assert(w.puts.take(n) =~= w.puts);
    lemma_puts_account(w, w.puts);
    lemma_drained_window(w, w.puts);
    if countable(plus(told(w), account(puts_drained(w, w.puts).1))) {
        lemma_puts(w, n);
        lemma_load_positive(w.puts);
    }
}

proof fn lemma_drained_window(w: WindowView, some: Seq<JobView>)
    ensures
        puts_drained(w, some).0.puts.len() == 0,
        puts_drained(w, some).0.gets == w.gets,
    decreases some.len(),
{
    if some.len() > 0 {
        lemma_drained_window(w, some.drop_last());
    }
}

proof fn lemma_flushed(w: WindowView)
    ensures
        counts(w, flushed(w).0, flushed(w).1),
        flushed(w).0.puts == w.puts,
        flushed(w).0.gets == w.gets,
{
    let ops = flushed(w).1;
    if ops.len() > 0 {
        lemma_push(Seq::empty(), ops[0]);
        assert(Seq::empty().push(ops[0]) =~= ops);
        lemma_load_positive(w.puts);
    }
}

proof fn lemma_acked(w: WindowView, path: Chars, entry: EntryView)
    ensures
        counts(w, acked(w, path, entry).0, acked(w, path, entry).1),
        acked(w, path, entry).0.puts == w.puts,
        acked(w, path, entry).0.gets == w.gets,
{
    let v = WindowView { acks: w.acks.insert(path, entry), ..w };
    lemma_flushed(v);
    assert(told(v) == told(w));
}

/// Installing files; each of them cost two messages.
proof fn lemma_installs(w: WindowView, some: Seq<JobView>)
    ensures
        ({
            let (v, ops) = gets_installed(w, some);
            let before = plus(
                tells(w.tally, w.puts, Seq::empty()),
                Account { messages: 2 * some.len() as int, ..nothing() },
            );
            &&& v.gets.len() == 0
            &&& v.puts == w.puts
            &&& countable(plus(before, account(ops))) ==> told(v) == plus(before, account(ops))
        }),
    decreases some.len(),
{
    if some.len() > 0 {
        let less = some.drop_last();
        lemma_installs(w, less);
        let j = some.last();
        let (v, before) = gets_installed(w, less);
        let (u, batch) = acked(v, j.path, j.entry);
        lemma_acked(v, j.path, j.entry);
        let a = OpView::Install { path: j.path, expected: j.expected, entry: j.entry };
        let b = OpView::Base { path: j.path, hash: Some(j.entry.hash) };
        let ops = gets_installed(w, some).1;
        assert(ops =~= (before.push(a) + batch).push(b).push(OpView::Persist));
        lemma_push(before, a);
        lemma_concat(before.push(a), batch);
        lemma_push(before.push(a) + batch, b);
        lemma_push((before.push(a) + batch).push(b), OpView::Persist);
        lemma_positive(before);
        lemma_positive(batch);
        lemma_load_positive(w.puts);
    }
}

proof fn lemma_receipts(jobs: Seq<JobView>)
    ensures
        account(receipts(jobs)) == (Account { messages: jobs.len() as int, ..nothing() }),
    decreases jobs.len(),
{
    if jobs.len() > 0 {
        lemma_receipts(jobs.drop_last());
        let j = jobs.last();
        let op = OpView::Receive { path: j.path, entry: j.entry };
        assert(receipts(jobs) =~= receipts(jobs.drop_last()).push(op));
        lemma_push(receipts(jobs.drop_last()), op);
    } else {
        assert(receipts(jobs) =~= Seq::empty());
    }
}

proof fn lemma_drain_gets(w: WindowView)
    ensures
        counts(w, gets_drained(w).0, gets_drained(w).1),
        gets_drained(w).0.gets.len() == 0,
        gets_drained(w).0.puts == w.puts,
{
    lemma_installs(w, w.gets);
    lemma_receipts(w.gets);
    lemma_concat(receipts(w.gets), gets_installed(w, w.gets).1);
}

proof fn lemma_turned(w: WindowView, action: Action, stop: bool)
    ensures
        counts(w, turned(w, action, stop).0, turned(w, action, stop).1),
{
    let none = Seq::<OpView>::empty();
    lemma_still(w);
    lemma_drain_puts(w);
    let (v, a) = if w.puts.len() > 0 && (action != Action::ToAndroid || stop) {
        puts_drained(w, w.puts)
    } else {
        (w, none)
    };
    lemma_still(v);
    lemma_drain_gets(v);
    let (u, b) = if v.gets.len() > 0 && (action != Action::ToPc || stop) {
        gets_drained(v)
    } else {
        (v, none)
    };
    lemma_then(w, v, u, a, b);
}

proof fn lemma_agreed(w: WindowView, here: Chars, pc: Option<EntryView>)
    ensures
        counts(w, agreed(w, here, pc).0, agreed(w, here, pc).1),
{
    let none = Seq::<OpView>::empty();
    match pc {
        None => {
            let b = OpView::Base { path: here, hash: None };
            lemma_push(none, b);
            assert(agreed(w, here, pc).1 =~= none.push(b));
        },
        Some(entry) => {
            lemma_acked(w, here, entry);
            let a = OpView::Acknowledge { path: here, entry };
            let b = OpView::Base { path: here, hash: Some(entry.hash) };
            let batch = acked(w, here, entry).1;
            lemma_push(none, a);
            lemma_concat(none.push(a), batch);
            lemma_push(none.push(a) + batch, b);
            assert(agreed(w, here, pc).1 =~= (none.push(a) + batch).push(b));
        },
    }
}

proof fn lemma_sent(w: WindowView, here: Chars, entry: EntryView, expected: Option<Chars>)
    ensures
        counts(w, sent(w, here, entry, expected).0, sent(w, here, entry, expected).1),
{
    let none = Seq::<OpView>::empty();
    lemma_still(w);
    lemma_drain_puts(w);
    let (v, drained) = if w.puts.len() == MAX_IN_FLIGHT_FILES || w.put_bytes + entry.size
        > MAX_STAGED_BYTES {
        puts_drained(w, w.puts)
    } else {
        (w, none)
    };
    let (u, ops) = sent(w, here, entry, expected);
    let snap = OpView::Snapshot { path: here, entry };
    let put = OpView::Put { path: here, expected, entry, staged: Staged::Local };
    let o1 = none.push(snap);
    let o2 = o1.push(put);
    lemma_push(none, snap);
    lemma_push(o1, put);
    lemma_load_positive(v.puts);
    if entry.size > MAX_STAGED_BYTES {
        let a = OpView::Accept { path: here };
        let b = OpView::Base { path: here, hash: Some(entry.hash) };
        let c = OpView::Acknowledge { path: here, entry };
        lemma_push(o2, a);
        lemma_push(o2.push(a), b);
        lemma_push(o2.push(a).push(b), c);
        let o5 = o2.push(a).push(b).push(c);
        assert(counts(v, u, o5));
        lemma_then(w, v, u, drained, o5);
        assert(ops =~= drained + o5);
    } else {
        assert(u.puts.drop_last() =~= v.puts);
        assert(counts(v, u, o2));
        lemma_then(w, v, u, drained, o2);
        assert(ops =~= drained + o2);
    }
}

proof fn lemma_fetched(w: WindowView, here: Chars, entry: EntryView, expected: Option<Chars>)
    ensures
        counts(w, fetched(w, here, entry, expected).0, fetched(w, here, entry, expected).1),
{
    let none = Seq::<OpView>::empty();
    lemma_still(w);
    lemma_drain_gets(w);
    let (v, drained) = if w.gets.len() == MAX_IN_FLIGHT_FILES || w.get_bytes + entry.size
        > MAX_STAGED_BYTES {
        gets_drained(w)
    } else {
        (w, none)
    };
    let (u, ops) = fetched(w, here, entry, expected);
    let get = OpView::Get { path: here, entry };
    let o1 = none.push(get);
    lemma_push(none, get);
    lemma_load_positive(v.puts);
    if entry.size > MAX_STAGED_BYTES {
        let r = OpView::Receive { path: here, entry };
        let i = OpView::Install { path: here, expected, entry };
        let b = OpView::Base { path: here, hash: Some(entry.hash) };
        let (s, batch) = acked(v, here, entry);
        lemma_acked(v, here, entry);
        lemma_push(o1, r);
        lemma_push(o1.push(r), i);
        let o3 = o1.push(r).push(i);
        lemma_concat(o3, batch);
        lemma_push(o3 + batch, b);
        let o4 = (o3 + batch).push(b);
        lemma_positive(batch);
        assert(counts(v, u, o4));
        lemma_then(w, v, u, drained, o4);
        assert(ops =~= drained + o4);
    } else {
        assert(counts(v, u, o1));
        lemma_then(w, v, u, drained, o1);
        assert(ops =~= drained + o1);
    }
}

proof fn lemma_parted(w: WindowView, path: Chars, pc: EntryView, android: EntryView)
    ensures
        counts(w, parted(w, path, pc, android).0, parted(w, path, pc, android).1),
{
    let ops = parted(w, path, pc, android).1;
    assert(ops.len() == 12);
    assert forall|i: int| 0 <= i < ops.len() implies #[trigger] ops.take(i + 1) == ops.take(i).push(
        ops[i],
    ) by {
        assert(ops.take(i + 1) =~= ops.take(i).push(ops[i]));
    }
    assert(ops.take(0) =~= Seq::empty());
    assert(ops.take(12) =~= ops);
    lemma_push(ops.take(0), ops[0]);
    assert(ops.take(0int + 1) == ops.take(0).push(ops[0]));
    lemma_push(ops.take(1), ops[1]);
    assert(ops.take(1int + 1) == ops.take(1).push(ops[1]));
    lemma_push(ops.take(2), ops[2]);
    assert(ops.take(2int + 1) == ops.take(2).push(ops[2]));
    lemma_push(ops.take(3), ops[3]);
    assert(ops.take(3int + 1) == ops.take(3).push(ops[3]));
    lemma_push(ops.take(4), ops[4]);
    assert(ops.take(4int + 1) == ops.take(4).push(ops[4]));
    lemma_push(ops.take(5), ops[5]);
    assert(ops.take(5int + 1) == ops.take(5).push(ops[5]));
    lemma_push(ops.take(6), ops[6]);
    assert(ops.take(6int + 1) == ops.take(6).push(ops[6]));
    lemma_push(ops.take(7), ops[7]);
    assert(ops.take(7int + 1) == ops.take(7).push(ops[7]));
    lemma_push(ops.take(8), ops[8]);
    assert(ops.take(8int + 1) == ops.take(8).push(ops[8]));
    lemma_push(ops.take(9), ops[9]);
    assert(ops.take(9int + 1) == ops.take(9).push(ops[9]));
    lemma_push(ops.take(10), ops[10]);
    assert(ops.take(10int + 1) == ops.take(10).push(ops[10]));
    lemma_push(ops.take(11), ops[11]);
    assert(ops.take(11int + 1) == ops.take(11).push(ops[11]));
    assert(account(ops) == (Account {
        files: 3,
        bytes: android.size * 2 + pc.size,
        conflicts: 1,
        messages: 6,
        ..nothing()
    }));
    lemma_load_positive(w.puts);
}

proof fn lemma_step(r: RoundView, w: World, policy: Seq<Chars>)
    ensures
        ({
            let (next, ops) = next_step(r, w.state, policy);
            counts(r.window, next.window, ops)
        }),
{
    let none = Seq::<OpView>::empty();
    let here = r.paths[r.index];
    let win = r.window;
    let (next, ops) = next_step(r, w.state, policy);
    let u = next.window;
    lemma_still(win);
    if !ignored(policy, here, false) {
        let base = look(w.state.files, here);
        let pc = look(r.pc, here);
        let android = look(r.android, here);
        let action = decided(base, pc, android, r.remap);
        let stop = forbidden(r.mode, base, r.remap, action);
        let (v, drained) = turned(win, action, stop);
        lemma_turned(win, action, stop);
        let progress = OpView::Progress {
            path: here,
            index: r.index,
            total: r.paths.len() as int,
        };
        let shown = if action != Action::Nothing {
            seq![progress]
        } else {
            none
        };
        lemma_push(none, progress);
        assert(none.push(progress) =~= seq![progress]);
        assert(counts(v, v, shown));
        lemma_then(win, v, v, drained, shown);
        if stop {
            let a = OpView::Mark { path: here };
            lemma_push(none, a);
            lemma_push(none.push(a), OpView::Persist);
            let tail = seq![a, OpView::Persist];
            assert(none.push(a).push(OpView::Persist) =~= tail);
            lemma_load_positive(v.puts);
            assert(counts(v, u, tail));
            lemma_then(win, v, u, drained + shown, tail);
            assert(ops == drained + shown + tail);
        } else {
            let clear = OpView::Clear { path: here };
            let cleared = if action != Action::Conflict && !begins(here, "Rowd Conflicts/"@) {
                seq![clear]
            } else {
                none
            };
            lemma_push(none, clear);
            assert(none.push(clear) =~= seq![clear]);
            assert(counts(v, v, cleared));
            lemma_then(win, v, v, drained + shown, cleared);
            let (s, acts) = acted(v, action, here, pc, android);
            match action {
                Action::Nothing => {
                    lemma_agreed(v, here, pc);
                },
                Action::ToAndroid => {
                    lemma_sent(v, here, pc->0, hash_of(android));
                },
                Action::ToPc => {
                    lemma_fetched(v, here, android->0, hash_of(pc));
                },
                Action::Conflict => {
                    lemma_parted(v, here, pc->0, android->0);
                },
            }
            lemma_then(win, v, s, drained + shown + cleared, acts);
            let stored = if new_base(base, action, pc, android) != base {
                seq![OpView::Persist]
            } else {
                none
            };
            lemma_push(none, OpView::Persist);
            assert(none.push(OpView::Persist) =~= seq![OpView::Persist]);
            assert(counts(s, s, stored));
            lemma_then(win, s, s, drained + shown + cleared + acts, stored);
            assert(ops == drained + shown + cleared + acts + stored);
        }
    }
}

proof fn lemma_rest(r: RoundView, w: World, policy: Seq<Chars>)
    ensures
        counts(r.window, finished(r, w, policy).window, steps(r, w, policy)),
        finished(r, w, policy).window.puts.len() == 0,
        finished(r, w, policy).window.gets.len() == 0,
    decreases r.paths.len() - r.index,
{
    let win = r.window;
    if 0 <= r.index < r.paths.len() {
        lemma_step(r, w, policy);
        let (next, ops) = next_step(r, w.state, policy);
        let t = apply_all(w, ops);
        lemma_rest(next, t, policy);
        lemma_then(win, next.window, finished(next, t, policy).window, ops, steps(next, t, policy));
    } else {
        let none = Seq::<OpView>::empty();
        let (a, x) = puts_drained(win, win.puts);
        lemma_drain_puts(win);
        let (b, y) = gets_drained(a);
        lemma_drain_gets(a);
        lemma_then(win, a, b, x, y);
        let (c, z) = flushed(b);
        lemma_flushed(b);
        lemma_then(win, b, c, x + y, z);
        let last = OpView::Progress {
            path: Seq::empty(),
            index: r.paths.len() as int,
            total: r.paths.len() as int,
        };
        lemma_push(none, last);
        assert(none.push(last) =~= seq![last]);
        assert(counts(c, c, seq![last]));
        lemma_then(win, c, c, x + y + z, seq![last]);
    }
}

/// The counters of a round are true: once all its steps are done they say how
/// many files were written and how large they are, how many paths were noted
/// as conflicts, how many messages were exchanged, and how many files were
/// confirmed in how many of them. Left out are rounds whose steps amount to
/// more than the counters hold.
pub proof fn law_counters_are_true(r: RoundView, w: World, policy: Seq<Chars>)
    requires
        r.index == 0,
        r.window == empty_window(),
        countable(account(steps(r, w, policy))),
    ensures
        ({
            let t = finished(r, w, policy).window.tally;
            let a = account(steps(r, w, policy));
            &&& t.transferred == a.files
            &&& t.bytes_transferred == a.bytes
            &&& t.conflicts == a.conflicts
            &&& t.control_messages == a.messages
            &&& t.ack_messages == a.acks
            &&& t.ack_entries == a.confirmed
        }),
{
    lemma_rest(r, w, policy);
    assert(told(r.window) == nothing());
    assert(plus(nothing(), account(steps(r, w, policy))) == account(steps(r, w, policy)));
}

/// A round and its files after some of its paths.
pub open spec fn later(r: RoundView, w: World, policy: Seq<Chars>, n: nat) -> (RoundView, World)
    decreases n,
{
    if n == 0 {
        (r, w)
    } else {
        let (s, t) = later(r, w, policy, (n - 1) as nat);
        let (next, ops) = next_step(s, t.state, policy);
        (next, apply_all(t, ops))
    }
}

/// What is on its way is modest, and the highest numbers so far cover it.
spec fn covered(w: WindowView) -> bool {
    &&& w.puts.len() <= 4 && w.gets.len() <= 4
    &&& w.put_bytes <= 8 * 1024 * 1024 && w.get_bytes <= 8 * 1024 * 1024
    &&& w.puts.len() <= w.tally.peak_in_flight_files <= 4
    &&& w.gets.len() <= w.tally.peak_in_flight_files
    &&& w.put_bytes <= w.tally.peak_staged_bytes <= 8 * 1024 * 1024
    &&& w.get_bytes <= w.tally.peak_staged_bytes
}

/// The highest numbers never fall.
spec fn rises(w: WindowView, v: WindowView) -> bool {
    &&& w.tally.peak_in_flight_files <= v.tally.peak_in_flight_files
    &&& w.tally.peak_staged_bytes <= v.tally.peak_staged_bytes
}

spec fn same_peaks(w: WindowView, v: WindowView) -> bool {
    &&& w.tally.peak_in_flight_files == v.tally.peak_in_flight_files
    &&& w.tally.peak_staged_bytes == v.tally.peak_staged_bytes
}

proof fn lemma_puts_peaks(w: WindowView, some: Seq<JobView>)
    ensures
        ({
            let v = puts_drained(w, some).0;
            &&& same_peaks(w, v) && v.puts.len() == 0 && v.put_bytes == 0
            &&& v.gets == w.gets && v.get_bytes == w.get_bytes
            &&& forall|i: int|
                0 <= i < puts_drained(w, some).1.len() ==> !(#[trigger] puts_drained(w, some).1[i]
                    is Progress)
        }),
    decreases some.len(),
{
    if some.len() > 0 {
        lemma_puts_peaks(w, some.drop_last());
    }
}

proof fn lemma_gets_peaks(w: WindowView, some: Seq<JobView>)
    ensures
        ({
            let v = gets_installed(w, some).0;
            &&& same_peaks(w, v) && v.gets.len() == 0 && v.get_bytes == 0
            &&& v.puts == w.puts && v.put_bytes == w.put_bytes
            &&& forall|i: int|
                0 <= i < gets_installed(w, some).1.len() ==> !(#[trigger] gets_installed(
                    w,
                    some,
                ).1[i] is Progress)
        }),
    decreases some.len(),
{
    if some.len() > 0 {
        lemma_gets_peaks(w, some.drop_last());
    }
}

proof fn lemma_drained_peaks(w: WindowView)
    ensures
        ({
            let (v, ops) = gets_drained(w);
            &&& same_peaks(w, v) && v.gets.len() == 0 && v.get_bytes == 0
            &&& v.puts == w.puts && v.put_bytes == w.put_bytes
            &&& forall|i: int| 0 <= i < ops.len() ==> !(#[trigger] ops[i] is Progress)
        }),
{
    lemma_gets_peaks(w, w.gets);
    let a = receipts(w.gets);
    let b = gets_installed(w, w.gets).1;
    assert forall|i: int| 0 <= i < (a + b).len() implies !(#[trigger] (a + b)[i] is Progress) by {
        if i < a.len() {
            assert((a + b)[i] == a[i]);
        } else {
            assert((a + b)[i] == b[i - a.len()]);
        }
    }
}

proof fn lemma_turned_peaks(w: WindowView, action: Action, stop: bool)
    requires
        covered(w),
    ensures
        ({
            let (v, ops) = turned(w, action, stop);
            &&& covered(v) && rises(w, v)
            &&& forall|i: int| 0 <= i < ops.len() ==> !(#[trigger] ops[i] is Progress)
        }),
{
    let none = Seq::<OpView>::empty();
    lemma_puts_peaks(w, w.puts);
    let (v, a) = if w.puts.len() > 0 && (action != Action::ToAndroid || stop) {
        puts_drained(w, w.puts)
    } else {
        (w, none)
    };
    lemma_drained_peaks(v);
    let b = if v.gets.len() > 0 && (action != Action::ToPc || stop) {
        gets_drained(v).1
    } else {
        none
    };
    assert forall|i: int| 0 <= i < (a + b).len() implies !(#[trigger] (a + b)[i] is Progress) by {
        if i < a.len() {
            assert((a + b)[i] == a[i]);
        } else {
            assert((a + b)[i] == b[i - a.len()]);
        }
    }
}

proof fn lemma_acted_peaks(
    w: WindowView,
    action: Action,
    here: Chars,
    pc: Option<EntryView>,
    android: Option<EntryView>,
)
    requires
        covered(w),
    ensures
        ({
            let (v, ops) = acted(w, action, here, pc, android);
            &&& covered(v) && rises(w, v)
            &&& forall|i: int| 0 <= i < ops.len() ==> !(#[trigger] ops[i] is Progress)
        }),
{
    lemma_puts_peaks(w, w.puts);
    lemma_drained_peaks(w);
    let ops = acted(w, action, here, pc, android).1;
    match action {
        Action::Nothing => {},
        Action::ToAndroid => {},
        Action::ToPc => {},
        Action::Conflict => {
            assert(ops.len() == 12);
            assert forall|i: int| 0 <= i < ops.len() implies !(#[trigger] ops[i] is Progress) by {
                assert(i == 0 || i == 1 || i == 2 || i == 3 || i == 4 || i == 5 || i == 6 || i == 7
                    || i == 8 || i == 9 || i == 10 || i == 11);
            }
        },
    }
}

/// A step that tells how far the round is names a path by its number, or says
/// that all are done.
spec fn tells_truly(r: RoundView, op: OpView) -> bool {
    op matches OpView::Progress { path, index, total } ==> total == r.paths.len() && ((path.len()
        == 0 && index == total) || (0 <= index < total && path == r.paths[index]))
}

proof fn lemma_step_peaks(r: RoundView, w: World, policy: Seq<Chars>)
    requires
        covered(r.window),
        0 <= r.index < r.paths.len(),
    ensures
        ({
            let (next, ops) = next_step(r, w.state, policy);
            &&& covered(next.window) && rises(r.window, next.window)
            &&& forall|i: int| 0 <= i < ops.len() ==> tells_truly(r, #[trigger] ops[i])
        }),
{
    let none = Seq::<OpView>::empty();
    let here = r.paths[r.index];
    let (next, ops) = next_step(r, w.state, policy);
    if !ignored(policy, here, false) {
        let base = look(w.state.files, here);
        let pc = look(r.pc, here);
        let android = look(r.android, here);
        let action = decided(base, pc, android, r.remap);
        let stop = forbidden(r.mode, base, r.remap, action);
        let (v, drained) = turned(r.window, action, stop);
        lemma_turned_peaks(r.window, action, stop);
        let shown = if action != Action::Nothing {
            seq![OpView::Progress { path: here, index: r.index, total: r.paths.len() as int }]
        } else {
            none
        };
        if stop {
            let tail = seq![OpView::Mark { path: here }, OpView::Persist];
            assert(ops == drained + shown + tail);
            assert forall|i: int| 0 <= i < ops.len() implies tells_truly(r, #[trigger] ops[i]) by {
                if i < drained.len() {
                    assert(ops[i] == drained[i]);
                } else if i < drained.len() + shown.len() {
                    assert(ops[i] == shown[i - drained.len()]);
                } else {
                    assert(ops[i] == tail[i - drained.len() - shown.len()]);
                }
            }
        } else {
            let cleared = if action != Action::Conflict && !begins(here, "Rowd Conflicts/"@) {
                seq![OpView::Clear { path: here }]
            } else {
                none
            };
            lemma_acted_peaks(v, action, here, pc, android);
            let acts = acted(v, action, here, pc, android).1;
            let stored = if new_base(base, action, pc, android) != base {
                seq![OpView::Persist]
            } else {
                none
            };
            assert(ops == drained + shown + cleared + acts + stored);
            let a = drained.len() as int;
            let b = a + shown.len();
            let c = b + cleared.len();
            let d = c + acts.len();
            assert forall|i: int| 0 <= i < ops.len() implies tells_truly(r, #[trigger] ops[i]) by {
                if i < a {
                    assert(ops[i] == drained[i]);
                } else if i < b {
                    assert(ops[i] == shown[i - a]);
                } else if i < c {
                    assert(ops[i] == cleared[i - b]);
                } else if i < d {
                    assert(ops[i] == acts[i - c]);
                } else {
                    assert(ops[i] == stored[i - d]);
                }
            }
        }
    }
}

proof fn lemma_later(r: RoundView, w: World, policy: Seq<Chars>, n: nat)
    requires
        r.index == 0,
        covered(r.window),
        n <= r.paths.len(),
    ensures
        ({
            let s = later(r, w, policy, n).0;
            &&& covered(s.window)
            &&& s.index == n && s.paths == r.paths && s.pc == r.pc && s.android == r.android
        }),
    decreases n,
{
    if n > 0 {
        lemma_later(r, w, policy, (n - 1) as nat);
        let (s, t) = later(r, w, policy, (n - 1) as nat);
        lemma_step_peaks(s, t, policy);
    }
}

proof fn lemma_end_peaks(r: RoundView, w: World, policy: Seq<Chars>)
    requires
        covered(r.window),
        0 <= r.index <= r.paths.len(),
    ensures
        rises(r.window, finished(r, w, policy).window),
        finished(r, w, policy).window.tally.peak_in_flight_files <= 4,
        finished(r, w, policy).window.tally.peak_staged_bytes <= 8 * 1024 * 1024,
        forall|i: int|
            0 <= i < steps(r, w, policy).len() ==> tells_truly(r, #[trigger] steps(r, w, policy)[i]),
    decreases r.paths.len() - r.index,
{
    let all = steps(r, w, policy);
    if r.index < r.paths.len() {
        lemma_step_peaks(r, w, policy);
        let (next, ops) = next_step(r, w.state, policy);
        let t = apply_all(w, ops);
        lemma_end_peaks(next, t, policy);
        let rest = steps(next, t, policy);
        assert forall|i: int| 0 <= i < all.len() implies tells_truly(r, #[trigger] all[i]) by {
            if i < ops.len() {
                assert(all[i] == ops[i]);
            } else {
                assert(all[i] == rest[i - ops.len()]);
                assert(tells_truly(next, rest[i - ops.len()]));
            }
        }
    } else {
        let win = r.window;
        let (a, x) = puts_drained(win, win.puts);
        lemma_puts_peaks(win, win.puts);
        let (b, y) = gets_drained(a);
        lemma_drained_peaks(a);
        let z = flushed(b).1;
        let last = seq![
            OpView::Progress {
                path: Seq::empty(),
                index: r.paths.len() as int,
                total: r.paths.len() as int,
            },
        ];
        assert(all == x + y + z + last);
        let i1 = x.len() as int;
        let i2 = i1 + y.len();
        let i3 = i2 + z.len();
        assert forall|i: int| 0 <= i < all.len() implies tells_truly(r, #[trigger] all[i]) by {
            if i < i1 {
                assert(all[i] == x[i]);
            } else if i < i2 {
                assert(all[i] == y[i - i1]);
            } else if i < i3 {
                assert(all[i] == z[i - i2]);
            } else {
                assert(all[i] == last[i - i3]);
            }
        }
    }
}

proof fn lemma_finished_later(r: RoundView, w: World, policy: Seq<Chars>, n: nat)
    requires
        r.index == 0,
        covered(r.window),
        n <= r.paths.len(),
    ensures
        ({
            let (s, t) = later(r, w, policy, n);
            finished(r, w, policy) == finished(s, t, policy)
        }),
    decreases n,
{
    if n > 0 {
        let m = (n - 1) as nat;
        lemma_finished_later(r, w, policy, m);
        lemma_later(r, w, policy, m);
        let (s, t) = later(r, w, policy, m);
        assert(s.index == m && m < s.paths.len());
    }
}

/// The highest numbers of a round are true bounds: between any two of its paths
/// no more files and no more bytes are on their way in the window than they
/// say, and they are never above four files and eight mebibytes.
pub proof fn law_peaks_cover_what_is_on_its_way(
    r: RoundView,
    w: World,
    policy: Seq<Chars>,
    n: nat,
)
    requires
        r.index == 0,
        r.window == empty_window(),
        n <= r.paths.len(),
    ensures
        ({
            let now = later(r, w, policy, n).0.window;
            let t = finished(r, w, policy).window.tally;
            &&& now.puts.len() <= t.peak_in_flight_files && now.gets.len() <= t.peak_in_flight_files
            &&& now.put_bytes <= t.peak_staged_bytes && now.get_bytes <= t.peak_staged_bytes
            &&& t.peak_in_flight_files <= 4 && t.peak_staged_bytes <= 8 * 1024 * 1024
        }),
{
    lemma_later(r, w, policy, n);
    lemma_finished_later(r, w, policy, n);
    let (s, t) = later(r, w, policy, n);
    lemma_end_peaks(s, t, policy);
}

/// What is told of the progress of a round is true: each time it names a path
/// of the round by its number, of as many as there are, or says that all are
/// done.
pub proof fn law_progress_is_true(r: RoundView, w: World, policy: Seq<Chars>, i: int)
    requires
        r.index == 0,
        r.window == empty_window(),
        0 <= i < steps(r, w, policy).len(),
    ensures
        steps(r, w, policy)[i] matches OpView::Progress { path, index, total } ==> total
            == r.paths.len() && ((path.len() == 0 && index == total) || (0 <= index < total && path
            == r.paths[index])),
{
    lemma_end_peaks(r, w, policy);
    assert(tells_truly(r, steps(r, w, policy)[i]));
}

} // verus!
