//! What a full scan of a folder comes to: exactly the files that it comes upon
//! and that the policy does not leave alone.

use crate::ignore::ignored;
use crate::model::{path_fault, EntryView};
use crate::storage::{
    after_record, after_visit, cached_entries, remembered, scan_finished, scan_remembered, visited,
    FileKind, ScanView, StoreView, Visit, Visited,
};
use crate::text::Chars;
use vstd::prelude::*;

verus! {

/// What the walk comes upon: a path, its kind and, for a file, the numbers that
/// tell its versions apart before and after it is read, and its content.
pub struct Stop {
    pub path: Chars,
    pub kind: FileKind,
    pub before: Seq<u64>,
    pub after: Seq<u64>,
    pub entry: EntryView,
}

/// The store and the scan after a stop of the walk, where a file is read if it
/// has to be; nothing where the scan fails.
pub open spec fn stopped(s: StoreView, scan: ScanView, at: Stop) -> Option<(StoreView, ScanView)> {
    let (t, u) = after_visit(s, scan, at.path, at.kind, at.before);
    match visited(s, at.path, at.kind, at.before) {
        Visited::Goes(Visit::Read) => if at.before == at.after {
            Some(after_record(t, u, at.path, at.before, at.after, at.entry))
        } else {
            None
        },
        Visited::Goes(_) => Some((t, u)),
        _ => None,
    }
}

/// The store and the scan after a walk.
pub open spec fn walked(s: StoreView, scan: ScanView, stops: Seq<Stop>) -> Option<
    (StoreView, ScanView),
>
    decreases stops.len(),
{
    if stops.len() == 0 {
        Some((s, scan))
    } else {
        match walked(s, scan, stops.drop_last()) {
            None => None,
            Some((t, u)) => stopped(t, u, stops.last()),
        }
    }
}

/// A file that the policy does not leave alone.
pub open spec fn wanted(patterns: Seq<Chars>, at: Stop) -> bool {
    at.kind == FileKind::File && !ignored(patterns, at.path, false)
}

/// A stop at which a scan fails: a path that cannot be synchronised, neither a
/// file nor a folder, or a file that has to be read and changes meanwhile.
pub open spec fn stumbles(s: StoreView, at: Stop) -> bool {
    !ignored(s.ignore, at.path, at.kind == FileKind::Directory) && (path_fault(at.path) is Some
        || at.kind == FileKind::Symlink || at.kind == FileKind::Other || (at.kind == FileKind::File
        && !remembered(s, at.path, at.before) && at.before != at.after))
}

/// No path comes twice.
pub open spec fn once_each(stops: Seq<Stop>) -> bool {
    forall|i: int, j: int| #![trigger stops[i], stops[j]]
        0 <= i < j < stops.len() ==> stops[i].path != stops[j].path
}

/// A remembered file with the same numbers has the remembered content.
pub open spec fn memory_holds(s: StoreView, stops: Seq<Stop>) -> bool {
    forall|i: int| #![trigger stops[i]]
        0 <= i < stops.len() && remembered(s, stops[i].path, stops[i].before)
            ==> s.cache[stops[i].path].entry == stops[i].entry
}

/// The files that a walk has come upon and that are wanted.
pub open spec fn found(patterns: Seq<Chars>, stops: Seq<Stop>) -> Map<Chars, EntryView>
    decreases stops.len(),
{
    if stops.len() == 0 {
        Map::empty()
    } else {
        let before = found(patterns, stops.drop_last());
        if wanted(patterns, stops.last()) {
            before.insert(stops.last().path, stops.last().entry)
        } else {
            before
        }
    }
}

proof fn lemma_walked(s: StoreView, scan: ScanView, stops: Seq<Stop>)
    requires
        scan.result == Map::<Chars, EntryView>::empty(),
        once_each(stops),
        memory_holds(s, stops),
    ensures
        walked(s, scan, stops) is Some <==> forall|i: int| #![trigger stops[i]]
            0 <= i < stops.len() ==> !stumbles(s, stops[i]),
        walked(s, scan, stops) matches Some((t, u)) ==> {
            &&& u.result == found(s.ignore, stops)
            &&& u.incremental == scan.incremental && u.policy == scan.policy
            &&& t.ignore == s.ignore
            &&& scan_remembered(t, u)
            &&& forall|p: Chars| #![trigger t.cache.dom().contains(p)] #![trigger t.cache[p]]
                (forall|i: int| 0 <= i < stops.len() ==> (#[trigger] stops[i]).path != p) ==> (
                t.cache.dom().contains(p) <==> s.cache.dom().contains(p)) && t.cache[p]
                    == s.cache[p]
        },
    decreases stops.len(),
{
    if stops.len() > 0 {
        let less = stops.drop_last();
        let at = stops.last();
        let n = stops.len() - 1;
        assert forall|i: int| #![trigger less[i]] 0 <= i < less.len() implies less[i] == stops[i] by {}
        assert(once_each(less)) by {
            assert forall|i: int, j: int| #![trigger less[i], less[j]]
                0 <= i < j < less.len() implies less[i].path != less[j].path by {
                assert(stops[i].path != stops[j].path);
            }
        }
        lemma_walked(s, scan, less);
        assert(at == stops[n]);
        match walked(s, scan, less) {
            None => {
                let i = choose|i: int| #![trigger less[i]]
                    0 <= i < less.len() && stumbles(s, less[i]);
                assert(stumbles(s, stops[i]));
            },
            Some((t, u)) => {
                assert forall|i: int| 0 <= i < less.len() implies (#[trigger] less[i]).path
                    != at.path by {
                    assert(stops[i].path != stops[n].path);
                }
                assert(t.cache.dom().contains(at.path) <==> s.cache.dom().contains(at.path));
                assert(t.cache[at.path] == s.cache[at.path]);
                assert(remembered(t, at.path, at.before) == remembered(s, at.path, at.before));
                assert(stopped(t, u, at) is Some <==> !stumbles(s, at));
                assert forall|i: int| #![trigger stops[i]]
                    0 <= i < stops.len() && i < n implies !stumbles(s, stops[i]) by {
                    assert(less[i] == stops[i]);
                }
                if let Some((v, w)) = stopped(t, u, at) {
                    assert(w.result =~= found(s.ignore, stops));
                    assert(scan_remembered(v, w)) by {
                        assert forall|k: Chars| #[trigger]
                            w.result.dom().contains(k) implies v.cache.dom().contains(k)
                            && v.cache[k].entry == w.result[k] by {
                            if k != at.path {
                                assert(u.result.dom().contains(k));
                            } else if !wanted(s.ignore, at) {
                                assert(u.result.dom().contains(k));
                            }
                        }
                    }
                    assert forall|p: Chars|
                        #![trigger v.cache.dom().contains(p)]
                        #![trigger v.cache[p]]
                        (forall|i: int|
                            0 <= i < stops.len() ==> (#[trigger] stops[i]).path != p) implies (
                    v.cache.dom().contains(p) <==> s.cache.dom().contains(p)) && v.cache[p]
                        == s.cache[p] by {
                        assert(stops[n].path != p);
                        assert forall|i: int| 0 <= i < less.len() implies (
                        #[trigger] less[i]).path != p by {
                            assert(stops[i].path != p);
                        }
                        assert(t.cache.dom().contains(p) <==> s.cache.dom().contains(p));
                        assert(t.cache[p] == s.cache[p]);
                    }
                }
            },
        }
    }
}

proof fn lemma_found(patterns: Seq<Chars>, stops: Seq<Stop>, p: Chars)
    requires
        once_each(stops),
    ensures
        found(patterns, stops).dom().contains(p) <==> exists|i: int|
            0 <= i < stops.len() && (#[trigger] stops[i]).path == p && wanted(patterns, stops[i]),
        forall|i: int|
            0 <= i < stops.len() && (#[trigger] stops[i]).path == p && wanted(patterns, stops[i])
                ==> found(patterns, stops)[p] == stops[i].entry,
    decreases stops.len(),
{
    if stops.len() > 0 {
        let less = stops.drop_last();
        let n = stops.len() - 1;
        assert forall|i: int| #![trigger less[i]] 0 <= i < less.len() implies less[i] == stops[i] by {}
        assert(once_each(less)) by {
            assert forall|i: int, j: int| #![trigger less[i], less[j]]
                0 <= i < j < less.len() implies less[i].path != less[j].path by {
                assert(stops[i].path != stops[j].path);
            }
        }
        lemma_found(patterns, less, p);
        let all = found(patterns, stops);
        assert(stops.last() == stops[n]);
        if found(patterns, less).dom().contains(p) {
            let i = choose|i: int|
                0 <= i < less.len() && (#[trigger] less[i]).path == p && wanted(patterns, less[i]);
            assert(stops[i].path == p && wanted(patterns, stops[i]));
        }
        assert forall|i: int|
            0 <= i < stops.len() && (#[trigger] stops[i]).path == p && wanted(
                patterns,
                stops[i],
            ) implies all.dom().contains(p) && all[p] == stops[i].entry by {
            if i < n {
                assert(less[i].path == p);
                assert(stops[i].path != stops[n].path);
            }
        }
    }
}

/// A full scan finds exactly the files that it comes upon and that the policy
/// does not leave alone, each with its content. It succeeds unless it stumbles:
/// over a path that cannot be synchronised, over what is neither a file nor a
/// folder, or over a file that changes while it is read. What it found is what
/// is remembered afterwards.
pub proof fn law_full_scan_finds_the_files(s: StoreView, scan: ScanView, stops: Seq<Stop>)
    requires
        scan.result == Map::<Chars, EntryView>::empty(),
        once_each(stops),
        memory_holds(s, stops),
    ensures
        walked(s, scan, stops) is Some <==> forall|i: int| #![trigger stops[i]]
            0 <= i < stops.len() ==> !stumbles(s, stops[i]),
        walked(s, scan, stops) matches Some((t, u)) ==> {
            &&& forall|p: Chars| #[trigger]
                u.result.dom().contains(p) <==> exists|i: int|
                    0 <= i < stops.len() && (#[trigger] stops[i]).path == p && wanted(
                        s.ignore,
                        stops[i],
                    )
            &&& forall|i: int|
                0 <= i < stops.len() && wanted(s.ignore, #[trigger] stops[i])
                    ==> u.result[stops[i].path] == stops[i].entry
            &&& cached_entries(scan_finished(t, u).cache) == u.result
        },
{
    lemma_walked(s, scan, stops);
    if let Some((t, u)) = walked(s, scan, stops) {
        assert forall|p: Chars| #[trigger] u.result.dom().contains(p) <==> exists|i: int|
            0 <= i < stops.len() && (#[trigger] stops[i]).path == p && wanted(
                s.ignore,
                stops[i],
            ) by {
            lemma_found(s.ignore, stops, p);
        }
        assert forall|i: int|
            0 <= i < stops.len() && wanted(s.ignore, #[trigger] stops[i]) implies u.result[stops[i].path]
            == stops[i].entry by {
            lemma_found(s.ignore, stops, stops[i].path);
        }
        assert(cached_entries(scan_finished(t, u).cache) =~= u.result);
    }
}

} // verus!
