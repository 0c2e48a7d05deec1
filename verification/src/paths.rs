//! Absolute paths as text: their parts, and which of them lie inside others.

use crate::model::lemma_pieces_concat;
use crate::text::{
    join, joined, lemma_pieces_shape, lemma_split_join, lemma_views_push, pieces, same, split, views,
    Chars,
};
use vstd::prelude::*;

verus! {

/// The parts of a path that say something.
pub open spec fn solid(parts: Seq<Chars>) -> Seq<Chars>
    decreases parts.len(),
{
    if parts.len() == 0 {
        Seq::empty()
    } else if parts.last().len() == 0 {
        solid(parts.drop_last())
    } else {
        solid(parts.drop_last()).push(parts.last())
    }
}

/// The folders and the file that a path names, outermost first.
pub open spec fn parts_of(path: Chars) -> Seq<Chars> {
    solid(pieces(path, '/'))
}

/// `inner` is `outer` or lies below it.
pub open spec fn within(inner: Chars, outer: Chars) -> bool {
    parts_of(outer).is_prefix_of(parts_of(inner))
}

/// One of the two lies inside the other.
pub open spec fn overlap(a: Chars, b: Chars) -> bool {
    within(a, b) || within(b, a)
}

/// The way from `outer` to `inner`, which lies in it.
pub open spec fn relative_to(inner: Chars, outer: Chars) -> Chars {
    joined(parts_of(inner).skip(parts_of(outer).len() as int), "/"@)
}

/// Overlap has no direction.
pub proof fn lemma_overlap_symmetric(a: Chars, b: Chars)
    ensures
        overlap(a, b) == overlap(b, a),
{
}

/// The folders and the file that a path names, outermost first.
pub fn path_parts(path: &str) -> (r: Vec<String>)
    ensures
        views(r@) == parts_of(path@),
{
    let parts = split(path, '/');
    let mut r: Vec<String> = Vec::new();
    let mut i: usize = 0;
    assert(views(r@) =~= Seq::<Chars>::empty());
    while i < parts.len()
        invariant
            i <= parts@.len(),
            views(r@) == solid(views(parts@).take(i as int)),
        decreases parts@.len() - i,
    {
        proof {
            let more = views(parts@).take(i + 1);
            assert(more.drop_last() =~= views(parts@).take(i as int));
            assert(more.last() == parts@[i as int]@);
        }
        if parts[i].as_str().unicode_len() > 0 {
            proof {
                lemma_views_push(r@, parts@[i as int]);
            }
            r.push(parts[i].clone());
            assert(views(r@) =~= solid(views(parts@).take(i + 1)));
        }
        i = i + 1;
    }
    assert(views(parts@).take(i as int) =~= views(parts@));
    r
}

fn leads(outer: &Vec<String>, inner: &Vec<String>) -> (r: bool)
    ensures
        r == views(outer@).is_prefix_of(views(inner@)),
{
    if outer.len() > inner.len() {
        return false;
    }
    let mut i: usize = 0;
    while i < outer.len()
        invariant
            i <= outer@.len() <= inner@.len(),
            forall|k: int| 0 <= k < i ==> views(outer@)[k] == #[trigger] views(inner@)[k],
        decreases outer@.len() - i,
    {
        if !same(outer[i].as_str(), inner[i].as_str()) {
            assert(views(outer@)[i as int] != views(inner@).subrange(0, outer@.len() as int)[i as int]);
            return false;
        }
        i = i + 1;
    }
    assert(views(outer@) =~= views(inner@).subrange(0, outer@.len() as int));
    true
}

/// Whether `inner` is `outer` or lies below it.
pub fn is_within(inner: &str, outer: &str) -> (r: bool)
    ensures
        r == within(inner@, outer@),
{
    let a = path_parts(outer);
    let b = path_parts(inner);
    leads(&a, &b)
}

/// Whether one of two paths lies inside the other.
pub fn overlaps(a: &str, b: &str) -> (r: bool)
    ensures
        r == overlap(a@, b@),
{
    is_within(a, b) || is_within(b, a)
}

/// The way from `outer` to `inner`, if `inner` lies in it.
pub fn relative(inner: &str, outer: &str) -> (r: Option<String>)
    ensures
        r is Some <==> within(inner@, outer@),
        r is Some ==> r->0@ == relative_to(inner@, outer@),
{
    let a = path_parts(outer);
    let b = path_parts(inner);
    if !leads(&a, &b) {
        return None;
    }
    let mut rest: Vec<String> = Vec::new();
    let mut i: usize = a.len();
    assert(views(rest@) =~= views(b@).subrange(a@.len() as int, i as int));
    while i < b.len()
        invariant
            a@.len() <= i <= b@.len(),
            views(rest@) == views(b@).subrange(a@.len() as int, i as int),
        decreases b@.len() - i,
    {
        proof {
            lemma_views_push(rest@, b@[i as int]);
            assert(views(b@).subrange(a@.len() as int, i + 1) =~= views(b@).subrange(
                a@.len() as int,
                i as int,
            ).push(b@[i as int]@));
        }
        rest.push(b[i].clone());
        i = i + 1;
    }
    assert(views(rest@) =~= views(b@).skip(a@.len() as int));
    Some(join(&rest, "/"))
}

/// The last part of a path.
pub fn last_part(path: &str) -> (r: Option<String>)
    ensures
        r is Some <==> parts_of(path@).len() > 0,
        r is Some ==> r->0@ == parts_of(path@).last(),
{
    let parts = path_parts(path);
    let size: usize = parts.len();
    if size == 0 {
        return None;
    }
    Some(parts[size - 1].clone())
}

/// A path with one more part.
pub open spec fn below(folder: Chars, name: Chars) -> Chars {
    folder + "/"@ + name
}

/// A path with one more part.
pub fn child(folder: &str, name: &str) -> (r: String)
    ensures
        r@ == below(folder@, name@),
{
    let mut r = folder.to_string();
    r.append("/");
    r.append(name);
    r
}

proof fn lemma_solid_concat(a: Seq<Chars>, b: Seq<Chars>)
    ensures
        solid(a + b) == solid(a) + solid(b),
    decreases b.len(),
{
    if b.len() == 0 {
        assert(a + b =~= a);
        assert(solid(a) + solid(b) =~= solid(a));
    } else {
        lemma_solid_concat(a, b.drop_last());
        assert((a + b).drop_last() =~= a + b.drop_last());
        assert((a + b).last() == b.last());
        assert(solid(a + b) =~= solid(a) + solid(b));
    }
}

proof fn lemma_solid_whole(a: Seq<Chars>)
    requires
        forall|i: int| 0 <= i < a.len() ==> (#[trigger] a[i]).len() > 0,
    ensures
        solid(a) == a,
    decreases a.len(),
{
    if a.len() > 0 {
        assert forall|i: int| 0 <= i < a.drop_last().len() implies (
        #[trigger] a.drop_last()[i]).len() > 0 by {
            assert(a.drop_last()[i] == a[i]);
        }
        lemma_solid_whole(a.drop_last());
        assert(a[a.len() - 1].len() > 0);
        assert(solid(a) =~= a);
    }
}

/// What stands below a folder lies in it, and the way to it from there is the
/// rest of the path, however deep it is.
pub proof fn law_way_below_a_folder(folder: Chars, rest: Chars)
    requires
        forall|i: int| 0 <= i < pieces(rest, '/').len() ==> (#[trigger] pieces(rest, '/')[i]).len() > 0,
    ensures
        within(folder + "/"@ + rest, folder),
        relative_to(folder + "/"@ + rest, folder) == rest,
{
    reveal_strlit("/");
    assert("/"@ =~= seq!['/']);
    let path = folder + seq!['/'] + rest;
    lemma_pieces_concat(folder, rest, '/');
    let a = pieces(folder, '/');
    let b = pieces(rest, '/');
    lemma_solid_concat(a, b);
    lemma_solid_whole(b);
    assert(parts_of(path) == parts_of(folder) + b);
    assert(parts_of(path).subrange(0, parts_of(folder).len() as int) =~= parts_of(folder));
    assert(parts_of(path).skip(parts_of(folder).len() as int) =~= b);
    lemma_split_join(rest, '/');
}

/// A folder whose name is longer is another one: it neither lies in the first
/// nor holds it.
pub proof fn law_longer_name_is_apart(folder: Chars, more: char)
    requires
        folder.len() > 0,
        folder.last() != '/',
        more != '/',
    ensures
        !overlap(folder.push(more), folder),
{
    let a = pieces(folder, '/');
    let b = pieces(folder.push(more), '/');
    assert(folder.push(more).drop_last() =~= folder);
    lemma_pieces_shape(folder, '/');
    assert(b == a.drop_last().push(a.last().push(more)));
    assert(a.last().len() > 0) by {
        assert(a == pieces(folder.drop_last(), '/').drop_last().push(
            pieces(folder.drop_last(), '/').last().push(folder.last()),
        ));
    }
    assert(b.drop_last() =~= a.drop_last());
    let s = solid(a.drop_last());
    assert(parts_of(folder) == s.push(a.last()));
    assert(parts_of(folder.push(more)) == s.push(a.last().push(more)));
    assert(a.last().len() != a.last().push(more).len());
    let x = parts_of(folder);
    let y = parts_of(folder.push(more));
    assert(x.len() == y.len());
    assert(x[x.len() - 1] != y[y.len() - 1]);
    assert(x.subrange(0, y.len() as int) =~= x);
    assert(y.subrange(0, x.len() as int) =~= y);
}

/// A folder overlaps itself and whatever lies below it, from either side.
pub proof fn law_folder_overlaps_what_it_holds(folder: Chars, rest: Chars)
    requires
        forall|i: int| 0 <= i < pieces(rest, '/').len() ==> (#[trigger] pieces(rest, '/')[i]).len() > 0,
    ensures
        overlap(folder, folder),
        overlap(folder + "/"@ + rest, folder),
        overlap(folder, folder + "/"@ + rest),
{
    law_way_below_a_folder(folder, rest);
    assert(parts_of(folder).subrange(0, parts_of(folder).len() as int) =~= parts_of(folder));
}

} // verus!
