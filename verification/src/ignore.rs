//! The `.rowdignore` policy: which paths of a Share are left alone.

use crate::text::{
    chars_of, join, joined, lemma_pieces_shape, lemma_split_join, lemma_views_push, lines, lines_of, pieces, same,
    split, string_of, trim, trimmed, views, Chars,
};
use vstd::prelude::*;
use vstd::utf8::encode_utf8;

verus! {

/// Whether a text matches a pattern in which `*` stands for any bytes, also
/// none.
pub open spec fn glob(pattern: Seq<u8>, text: Seq<u8>) -> bool
    decreases pattern.len(), text.len(),
{
    if pattern.len() == 0 {
        text.len() == 0
    } else if pattern[0] == 42u8 {
        glob(pattern.skip(1), text) || (text.len() > 0 && glob(pattern, text.skip(1)))
    } else {
        text.len() > 0 && pattern[0] == text[0] && glob(pattern.skip(1), text.skip(1))
    }
}

/// The patterns of a policy: its lines without surrounding white space, but
/// for empty ones and those that begin with `#`.
pub open spec fn patterns_of(lines: Seq<Chars>) -> Seq<Chars>
    decreases lines.len(),
{
    if lines.len() == 0 {
        Seq::empty()
    } else {
        let rest = patterns_of(lines.drop_last());
        let line = trimmed(lines.last());
        if line.len() == 0 || line[0] == '#' {
            rest
        } else {
            rest.push(line)
        }
    }
}

/// `s` without leading slashes.
pub open spec fn unrooted(s: Chars) -> Chars
    decreases s.len(),
{
    if s.len() > 0 && s[0] == '/' {
        unrooted(s.drop_first())
    } else {
        s
    }
}

/// `s` without trailing slashes.
pub open spec fn unslashed(s: Chars) -> Chars
    decreases s.len(),
{
    if s.len() > 0 && s.last() == '/' {
        unslashed(s.drop_last())
    } else {
        s
    }
}

/// What the first `n` components offer a pattern: their path if the pattern
/// names a path, else the last of them alone.
pub open spec fn candidate(core: Chars, parts: Seq<Chars>, n: int) -> Chars {
    if core.contains('/') {
        joined(parts.take(n), "/"@)
    } else {
        parts[n - 1]
    }
}

/// Whether a pattern covers the path made of the first `n` components. A
/// pattern that ends in a slash covers directories alone.
pub open spec fn covers_at(pattern: Chars, parts: Seq<Chars>, directory: bool, n: int) -> bool {
    let core = unrooted(unslashed(pattern));
    let dir_only = pattern.len() > 0 && pattern.last() == '/';
    &&& 1 <= n <= parts.len()
    &&& !(dir_only && n == parts.len() && !directory)
    &&& glob(encode_utf8(core), encode_utf8(candidate(core, parts, n)))
}

/// Whether a pattern covers a path or a directory above it.
pub open spec fn covers(pattern: Chars, path: Chars, directory: bool) -> bool {
    exists|n: int| #[trigger] covers_at(pattern, pieces(path, '/'), directory, n)
}

/// The library's own files, which are never synchronised.
pub open spec fn private_path(path: Chars) -> bool {
    pieces(path, '/').contains(".rowd"@) || path == ".rowdignore"@
}

/// Whether a policy leaves a path alone.
pub open spec fn ignored(patterns: Seq<Chars>, path: Chars, directory: bool) -> bool {
    private_path(path) || exists|i: int|
        0 <= i < patterns.len() && covers(#[trigger] patterns[i], path, directory)
}

/// A policy, ready to be asked.
pub struct Ignore {
    patterns: Vec<String>,
}

impl View for Ignore {
    type V = Seq<Chars>;

    closed spec fn view(&self) -> Seq<Chars> {
        views(self.patterns@)
    }
}

impl Ignore {
    /// A policy without patterns.
    pub fn new() -> (r: Self)
        ensures
            r@ == Seq::<Chars>::empty(),
    {
        let r = Ignore { patterns: Vec::new() };
        assert(r@ =~= Seq::<Chars>::empty());
        r
    }

    /// Reads the patterns of a policy.
    pub fn parse(text: &str) -> (r: Self)
        ensures
            r@ == patterns_of(lines_of(text@)),
    {
        let all = lines(text);
        let ghost lines_seq = lines_of(text@);
        let mut patterns: Vec<String> = Vec::new();
        let mut i: usize = 0;
        assert(views(patterns@) =~= patterns_of(lines_seq.take(0)));
        while i < all.len()
            invariant
                lines_seq == views(all@),
                i <= all@.len(),
                views(patterns@) == patterns_of(lines_seq.take(i as int)),
            decreases all@.len() - i,
        {
            let line = trim(all[i].as_str());
            proof {
                let t = lines_seq.take(i + 1);
                assert(t.drop_last() =~= lines_seq.take(i as int));
                assert(t.last() == all@[i as int]@);
                lemma_views_push(patterns@, line);
            }
            let v = chars_of(line.as_str());
            if v.len() > 0 && v[0] != '#' {
                patterns.push(line);
            }
            i = i + 1;
        }
        assert(lines_seq.take(i as int) =~= lines_seq);
        Ignore { patterns }
    }

    /// Whether the policy leaves a path alone. `directory` says whether the
    /// path itself is a directory.
    pub fn matches(&self, path: &str, directory: bool) -> (r: bool)
        ensures
            r == ignored(self@, path@, directory),
    {
        let parts = split(path, '/');
        let mut i: usize = 0;
        while i < parts.len()
            invariant
                views(parts@) == pieces(path@, '/'),
                i <= parts@.len(),
                forall|j: int| 0 <= j < i ==> views(parts@)[j] != ".rowd"@,
            decreases parts@.len() - i,
        {
            if same(parts[i].as_str(), ".rowd") {
                assert(views(parts@)[i as int] == ".rowd"@);
                return true;
            }
            i = i + 1;
        }
        if same(path, ".rowdignore") {
            return true;
        }
        assert(!private_path(path@));
        i = 0;
        while i < self.patterns.len()
            invariant
                views(parts@) == pieces(path@, '/'),
                !private_path(path@),
                i <= self.patterns@.len(),
                forall|j: int| 0 <= j < i ==> !covers(#[trigger] self@[j], path@, directory),
            decreases self.patterns@.len() - i,
        {
            assert(self@[i as int] == self.patterns@[i as int]@);
            if pattern_covers(self.patterns[i].as_str(), &parts, directory) {
                assert(covers(self@[i as int], path@, directory));
                return true;
            }
            i = i + 1;
        }
        false
    }
}

/// A pattern without the slashes at its ends.
fn core_of(pattern: &str) -> (r: Vec<char>)
    ensures
        r@ == unrooted(unslashed(pattern@)),
{
    let v = chars_of(pattern);
    let mut to: usize = v.len();
    assert(v@.take(to as int) =~= v@);
    while to > 0 && v[to - 1] == '/'
        invariant
            to <= v@.len(),
            unslashed(v@) == unslashed(v@.take(to as int)),
        decreases to,
    {
        assert(v@.take(to as int).drop_last() =~= v@.take(to - 1));
        to = to - 1;
    }
    let mut from: usize = 0;
    assert(v@.subrange(0, to as int) =~= v@.take(to as int));
    while from < to && v[from] == '/'
        invariant
            from <= to <= v@.len(),
            unrooted(unslashed(v@)) == unrooted(v@.subrange(from as int, to as int)),
        decreases to - from,
    {
        assert(v@.subrange(from as int, to as int).drop_first() =~= v@.subrange(
            from + 1,
            to as int,
        ));
        from = from + 1;
    }
    let text = string_of(&v, from, to);
    chars_of(text.as_str())
}

/// Whether a pattern covers a path or a directory above it.
fn pattern_covers(pattern: &str, parts: &Vec<String>, directory: bool) -> (r: bool)
    ensures
        r == exists|n: int| #[trigger] covers_at(pattern@, views(parts@), directory, n),
{
    let v = chars_of(pattern);
    let dir_only = v.len() > 0 && v[v.len() - 1] == '/';
    let core = core_of(pattern);
    let text = string_of(&core, 0, core.len());
    assert(text@ =~= core@);
    let mut nested = false;
    let mut i: usize = 0;
    while i < core.len()
        invariant
            i <= core@.len(),
            nested == core@.take(i as int).contains('/'),
        decreases core@.len() - i,
    {
        proof {
            crate::collections::lemma_take_contains(core@, i as int);
        }
        if core[i] == '/' {
            nested = true;
        }
        i = i + 1;
    }
    assert(core@.take(i as int) =~= core@);
    let mut above: usize = 0;
    while above < parts.len()
        invariant
            above <= parts@.len(),
            text@ == unrooted(unslashed(pattern@)),
            nested == text@.contains('/'),
            dir_only == (pattern@.len() > 0 && pattern@.last() == '/'),
            forall|m: int| 1 <= m <= above ==> !#[trigger] covers_at(
                pattern@,
                views(parts@),
                directory,
                m,
            ),
        decreases parts@.len() - above,
    {
        let n: usize = above + 1;
        if !(dir_only && n == parts.len() && !directory) {
            let name = if nested {
                let mut head: Vec<String> = Vec::new();
                let mut k: usize = 0;
                assert(views(head@) =~= views(parts@).take(0));
                while k < n
                    invariant
                        k <= n <= parts@.len(),
                        views(head@) == views(parts@).take(k as int),
                    decreases n - k,
                {
                    let part = parts[k].clone();
                    proof {
                        lemma_views_push(head@, part);
                        assert(views(parts@).take(k + 1) =~= views(parts@).take(k as int).push(
                            views(parts@)[k as int],
                        ));
                    }
                    head.push(part);
                    k = k + 1;
                }
                join(&head, "/")
            } else {
                parts[n - 1].clone()
            };
            assert(name@ == candidate(text@, views(parts@), n as int));
            if wildcard(text.as_str().as_bytes(), name.as_str().as_bytes()) {
                assert(covers_at(pattern@, views(parts@), directory, n as int));
                return true;
            }
        }
        above = n;
    }
    proof {
        assert forall|m: int| !#[trigger] covers_at(pattern@, views(parts@), directory, m) by {
            if 1 <= m <= above {
                assert(!covers_at(pattern@, views(parts@), directory, m));
            }
        }
    }
    false
}

/// The literal bytes `from..to` of the pattern are those at `at` of the text.
spec fn literal(p: Seq<u8>, from: int, to: int, t: Seq<u8>, at: int) -> bool {
    &&& 0 <= from <= to <= p.len()
    &&& 0 <= at && at + (to - from) <= t.len()
    &&& forall|i: int| from <= i < to ==> p[i] != 42u8 && #[trigger] p[i] == t[at + (i - from)]
}

/// Matching literals step by step is matching what remains.
proof fn lemma_literal(p: Seq<u8>, from: int, to: int, t: Seq<u8>, at: int)
    requires
        literal(p, from, to, t, at),
    ensures
        glob(p.skip(from), t.skip(at)) == glob(p.skip(to), t.skip(at + (to - from))),
    decreases to - from,
{
    if from < to {
        assert(p[from] != 42u8 && p[from] == t[at + (from - from)]);
        assert forall|i: int| from + 1 <= i < to implies p[i] != 42u8 && #[trigger] p[i] == t[at + 1
            + (i - (from + 1))] by {
            assert(p[i] == t[at + (i - from)]);
        }
        lemma_literal(p, from + 1, to, t, at + 1);
        assert(p.skip(from).skip(1) =~= p.skip(from + 1));
        assert(t.skip(at).skip(1) =~= t.skip(at + 1));
    }
}

/// A match behind literals shows that the literals stand in the text.
proof fn lemma_literal_needed(p: Seq<u8>, from: int, to: int, t: Seq<u8>, at: int)
    requires
        0 <= from <= to <= p.len(),
        0 <= at <= t.len(),
        forall|i: int| from <= i < to ==> #[trigger] p[i] != 42u8,
        glob(p.skip(from), t.skip(at)),
    ensures
        literal(p, from, to, t, at),
        glob(p.skip(to), t.skip(at + (to - from))),
    decreases to - from,
{
    if from < to {
        assert(p[from] != 42u8);
        assert(p.skip(from).skip(1) =~= p.skip(from + 1));
        assert(t.skip(at).skip(1) =~= t.skip(at + 1));
        lemma_literal_needed(p, from + 1, to, t, at + 1);
        assert forall|i: int| from <= i < to implies p[i] != 42u8 && #[trigger] p[i] == t[at + (i
            - from)] by {
            if i > from {
                assert(p[i] == t[at + 1 + (i - (from + 1))]);
            }
        }
    }
}

/// A star matches exactly if what follows it matches somewhere from `at` on.
proof fn lemma_star(p: Seq<u8>, s: int, t: Seq<u8>, at: int)
    requires
        0 <= s < p.len(),
        p[s] == 42u8,
        0 <= at <= t.len(),
    ensures
        glob(p.skip(s), t.skip(at)) <==> exists|r: int|
            at <= r <= t.len() && #[trigger] glob(p.skip(s + 1), t.skip(r)),
    decreases t.len() - at,
{
    let q = p.skip(s);
    assert(q.skip(1) =~= p.skip(s + 1));
    assert(q[0] == 42u8);
    assert(glob(q, t.skip(at)) == (glob(p.skip(s + 1), t.skip(at)) || (at < t.len() && glob(
        q,
        t.skip(at).skip(1),
    ))));
    if at < t.len() {
        lemma_star(p, s, t, at + 1);
        assert(t.skip(at).skip(1) =~= t.skip(at + 1));
        if exists|r: int| at <= r <= t.len() && #[trigger] glob(p.skip(s + 1), t.skip(r)) {
            let r = choose|r: int| at <= r <= t.len() && #[trigger] glob(p.skip(s + 1), t.skip(r));
            if r > at {
                assert(glob(q, t.skip(at + 1)));
            }
        }
        if glob(q, t.skip(at)) && !glob(p.skip(s + 1), t.skip(at)) {
            assert(glob(q, t.skip(at + 1)));
        }
    }
}

/// A star also matches when more text stands before what it matched.
proof fn lemma_star_absorbs(p: Seq<u8>, s: int, t: Seq<u8>, a: int, b: int)
    requires
        0 <= s < p.len(),
        p[s] == 42u8,
        0 <= a <= b <= t.len(),
        glob(p.skip(s), t.skip(b)),
    ensures
        glob(p.skip(s), t.skip(a)),
{
    lemma_star(p, s, t, a);
    lemma_star(p, s, t, b);
}

/// What the search still has to decide.
spec fn pending(p: Seq<u8>, t: Seq<u8>, pi: int, ti: int, star: Option<usize>, retry: int) -> bool {
    match star {
        None => glob(p.skip(pi), t.skip(ti)),
        Some(s) => glob(p.skip(s as int), t.skip(retry)),
    }
}

/// The search stands `pi` bytes into the pattern and `ti` into the text, and
/// the bytes since the last star are literal.
spec fn aligned(p: Seq<u8>, t: Seq<u8>, pi: int, ti: int, star: Option<usize>, retry: int) -> bool {
    &&& 0 <= pi <= p.len()
    &&& 0 <= ti <= t.len()
    &&& match star {
        None => true,
        Some(s) => {
            &&& s < p.len() && p[s as int] == 42u8
            &&& 0 <= retry <= ti
            &&& ti - retry == pi - (s + 1)
            &&& literal(p, s + 1, pi, t, retry)
        },
    }
}

/// At a star, the earlier star and its literals may be forgotten.
proof fn lemma_forget(p: Seq<u8>, t: Seq<u8>, pi: int, ti: int, star: Option<usize>, retry: int)
    requires
        aligned(p, t, pi, ti, star, retry),
        pi < p.len(),
        p[pi] == 42u8,
    ensures
        pending(p, t, pi, ti, star, retry) == glob(p.skip(pi), t.skip(ti)),
{
    match star {
        None => {},
        Some(s) => {
            let f = s as int + 1;
            lemma_literal(p, f, pi, t, retry);
            lemma_star(p, s as int, t, retry);
            if glob(p.skip(s as int), t.skip(retry)) {
                let r = choose|r: int| retry <= r <= t.len() && #[trigger] glob(p.skip(f), t.skip(r));
                lemma_literal_needed(p, f, pi, t, r);
                lemma_star_absorbs(p, pi, t, ti, r + (pi - f));
            }
        },
    }
}

/// Where the literals cannot go on, the last star has to take one byte more.
proof fn lemma_retry(p: Seq<u8>, t: Seq<u8>, pi: int, ti: int, s: usize, retry: int)
    requires
        aligned(p, t, pi, ti, Some(s), retry),
        ti < t.len(),
        pi < p.len() ==> p[pi] != 42u8 && p[pi] != t[ti],
    ensures
        glob(p.skip(s as int), t.skip(retry)) == glob(p.skip(s as int), t.skip(retry + 1)),
{
    let f = s as int + 1;
    lemma_literal(p, f, pi, t, retry);
    assert(!glob(p.skip(pi), t.skip(ti)));
    lemma_star(p, s as int, t, retry);
    lemma_star(p, s as int, t, retry + 1);
    if glob(p.skip(s as int), t.skip(retry)) {
        let r = choose|r: int| retry <= r <= t.len() && #[trigger] glob(p.skip(f), t.skip(r));
        assert(r != retry);
        assert(glob(p.skip(f), t.skip(r)));
    }
}

/// At the end of the text only stars may remain.
proof fn lemma_end(p: Seq<u8>, t: Seq<u8>, pi: int, star: Option<usize>, retry: int)
    requires
        aligned(p, t, pi, t.len() as int, star, retry),
    ensures
        pending(p, t, pi, t.len() as int, star, retry) == glob(p.skip(pi), t.skip(t.len() as int)),
{
    match star {
        None => {},
        Some(s) => {
            let f = s as int + 1;
            if forall|i: int| f <= i < pi ==> #[trigger] p[i] != 42u8 {
                lemma_literal(p, f, pi, t, retry);
                lemma_star(p, s as int, t, retry);
                if glob(p.skip(s as int), t.skip(retry)) {
                    let r = choose|r: int|
                        retry <= r <= t.len() && #[trigger] glob(p.skip(f), t.skip(r));
                    lemma_literal_needed(p, f, pi, t, r);
                    assert(r == retry);
                }
            }
        },
    }
}

/// Whether a text matches a pattern in which `*` stands for any bytes.
fn wildcard(pattern: &[u8], text: &[u8]) -> (r: bool)
    ensures
        r == glob(pattern@, text@),
{
    let mut p: usize = 0;
    let mut t: usize = 0;
    let mut star: Option<usize> = None;
    let mut retry: usize = 0;
    proof {
        assert(pattern@.skip(0) =~= pattern@);
        assert(text@.skip(0) =~= text@);
    }
    while t < text.len()
        invariant
            aligned(pattern@, text@, p as int, t as int, star, retry as int),
            pending(pattern@, text@, p as int, t as int, star, retry as int) == glob(
                pattern@,
                text@,
            ),
            star is None ==> retry == 0,
            retry <= t,
        decreases
                text@.len() - retry,
                pattern@.len() - (if star is Some {
                    star->0 + 1
                } else {
                    0int
                }),
                text@.len() - t,
    {
        if p < pattern.len() && pattern[p] == 42 {
            proof {
                lemma_forget(pattern@, text@, p as int, t as int, star, retry as int);
            }
            star = Some(p);
            p = p + 1;
            retry = t;
        } else if p < pattern.len() && pattern[p] == text[t] {
            proof {
                if star is None {
                    assert(pattern@.skip(p as int).skip(1) =~= pattern@.skip(p + 1));
                    assert(text@.skip(t as int).skip(1) =~= text@.skip(t + 1));
                }
            }
            p = p + 1;
            t = t + 1;
        } else {
            match star {
                Some(s) => {
                    proof {
                        lemma_retry(pattern@, text@, p as int, t as int, s, retry as int);
                    }
                    retry = retry + 1;
                    t = retry;
                    p = s + 1;
                },
                None => {
                    return false;
                },
            }
        }
    }
    proof {
        lemma_end(pattern@, text@, p as int, star, retry as int);
        assert(text@.skip(text@.len() as int) =~= Seq::<u8>::empty());
    }
    while p < pattern.len() && pattern[p] == 42
        invariant
            p <= pattern@.len(),
            glob(pattern@, text@) == glob(pattern@.skip(p as int), Seq::<u8>::empty()),
        decreases pattern@.len() - p,
    {
        proof {
            let q = pattern@.skip(p as int);
            assert(q.skip(1) =~= pattern@.skip(p + 1));
        }
        p = p + 1;
    }
    p == pattern.len()
}

/// The library's own files are left alone whatever the policy says.
pub proof fn law_private_files_stay(patterns: Seq<Chars>, path: Chars, directory: bool)
    requires
        path == ".rowdignore"@ || pieces(path, '/').contains(".rowd"@),
    ensures
        ignored(patterns, path, directory),
{
}

/// More patterns never bring a path back: there is no negation.
pub proof fn law_no_negation(some: Seq<Chars>, more: Seq<Chars>, path: Chars, directory: bool)
    requires
        ignored(some, path, directory),
    ensures
        ignored(some + more, path, directory),
        ignored(more + some, path, directory),
{
    if !private_path(path) {
        let i = choose|i: int|
            0 <= i < some.len() && covers(#[trigger] some[i], path, directory);
        assert((some + more)[i] == some[i]);
        assert((more + some)[more.len() + i] == some[i]);
    }
}

/// What lies below an ignored directory is ignored.
pub proof fn law_below_ignored(patterns: Seq<Chars>, above: Chars, rest: Chars, directory: bool)
    requires
        ignored(patterns, above, true),
        above != ".rowdignore"@,
    ensures
        ignored(patterns, above + seq!['/'] + rest, directory),
{
    let path = above + seq!['/'] + rest;
    crate::model::lemma_pieces_concat(above, rest, '/');
    lemma_pieces_shape(rest, '/');
    let a = pieces(above, '/');
    let b = pieces(path, '/');
    assert(b == a + pieces(rest, '/'));
    if private_path(above) {
        let i = choose|i: int| 0 <= i < a.len() && a[i] == ".rowd"@;
        assert(b[i] == ".rowd"@);
    } else {
        let i = choose|i: int|
            0 <= i < patterns.len() && covers(#[trigger] patterns[i], above, true);
        let n = choose|n: int| #[trigger] covers_at(patterns[i], a, true, n);
        assert(b.take(n) =~= a.take(n));
        assert(b[n - 1] == a[n - 1]);
        assert(covers_at(patterns[i], b, directory, n));
        assert(covers(patterns[i], path, directory));
    }
}

/// A pattern without a star matches its own text and no other.
pub proof fn law_plain_pattern(p: Seq<u8>, t: Seq<u8>)
    requires
        !p.contains(42u8),
    ensures
        glob(p, t) <==> p == t,
    decreases p.len(),
{
    if p.len() == 0 {
        assert(glob(p, t) <==> p =~= t);
    } else {
        assert(p.contains(p[0]));
        let q = p.skip(1);
        assert forall|x: u8| q.contains(x) implies p.contains(x) by {
            let i = choose|i: int| 0 <= i < q.len() && q[i] == x;
            assert(p[i + 1] == x);
        }
        if t.len() > 0 {
            law_plain_pattern(q, t.skip(1));
            if p[0] == t[0] && q == t.skip(1) {
                assert(p =~= seq![p[0]] + q);
                assert(t =~= seq![t[0]] + t.skip(1));
            }
        }
    }
}

/// A text that begins with what one pattern matches and ends with what another
/// does.
pub open spec fn bridged(a: Seq<u8>, b: Seq<u8>, t: Seq<u8>, i: int, j: int) -> bool {
    0 <= i <= j <= t.len() && glob(a, t.take(i)) && glob(b, t.skip(j))
}

/// A star matches any bytes between what stands before it and what follows it.
pub proof fn law_star_matches_anything(a: Seq<u8>, b: Seq<u8>, t: Seq<u8>)
    ensures
        glob(a + seq![42u8] + b, t) <==> exists|i: int, j: int| #[trigger] bridged(a, b, t, i, j),
    decreases a.len(), t.len(),
{
    let p = a + seq![42u8] + b;
    if a.len() == 0 {
        lemma_star(p, 0, t, 0);
        assert(p.skip(0) =~= p);
        assert(p.skip(1) =~= b);
        assert(t.skip(0) =~= t);
        if glob(p, t) {
            let r = choose|r: int| 0 <= r <= t.len() && #[trigger] glob(p.skip(0int + 1), t.skip(r));
            assert(bridged(a, b, t, 0, r));
        }
        if exists|i: int, j: int| #[trigger] bridged(a, b, t, i, j) {
            let (i, j) = choose|i: int, j: int| #[trigger] bridged(a, b, t, i, j);
            assert(glob(p.skip(0int + 1), t.skip(j)));
        }
    } else {
        let a1 = a.skip(1);
        assert(p[0] == a[0]);
        assert(p.skip(1) =~= a1 + seq![42u8] + b);
        if a[0] == 42u8 {
            law_star_matches_anything(a1, b, t);
            if t.len() > 0 {
                law_star_matches_anything(a, b, t.skip(1));
            }
            if glob(p.skip(1), t) {
                let (i, j) = choose|i: int, j: int| #[trigger] bridged(a1, b, t, i, j);
                assert(bridged(a, b, t, i, j));
            } else if t.len() > 0 && glob(p, t.skip(1)) {
                let (i, j) = choose|i: int, j: int| #[trigger] bridged(a, b, t.skip(1), i, j);
                assert(t.take(i + 1).skip(1) =~= t.skip(1).take(i));
                assert(t.skip(1).skip(j) =~= t.skip(j + 1));
                assert(bridged(a, b, t, i + 1, j + 1));
            }
            if exists|i: int, j: int| #[trigger] bridged(a, b, t, i, j) {
                let (i, j) = choose|i: int, j: int| #[trigger] bridged(a, b, t, i, j);
                if glob(a1, t.take(i)) {
                    assert(bridged(a1, b, t, i, j));
                } else {
                    assert(t.take(i).skip(1) =~= t.skip(1).take(i - 1));
                    assert(t.skip(1).skip(j - 1) =~= t.skip(j));
                    assert(bridged(a, b, t.skip(1), i - 1, j - 1));
                }
            }
        } else {
            if t.len() > 0 {
                law_star_matches_anything(a1, b, t.skip(1));
                if glob(p, t) {
                    let (i, j) = choose|i: int, j: int| #[trigger] bridged(a1, b, t.skip(1), i, j);
                    assert(t.take(i + 1).skip(1) =~= t.skip(1).take(i));
                    assert(t.skip(1).skip(j) =~= t.skip(j + 1));
                    assert(bridged(a, b, t, i + 1, j + 1));
                }
            }
            if exists|i: int, j: int| #[trigger] bridged(a, b, t, i, j) {
                let (i, j) = choose|i: int, j: int| #[trigger] bridged(a, b, t, i, j);
                assert(i > 0);
                assert(t.take(i).skip(1) =~= t.skip(1).take(i - 1));
                assert(t.skip(1).skip(j - 1) =~= t.skip(j));
                assert(bridged(a1, b, t.skip(1), i - 1, j - 1));
            }
        }
    }
}

proof fn lemma_star_byte(c: u32)
    by (bit_vector)
    requires
        c <= 0x10ffff,
    ensures
        vstd::utf8::has_width_1_encoding(c) && vstd::utf8::leading_byte_width_1(c) == 42u8 ==> c
            == 42u32,
        vstd::utf8::leading_byte_width_2(c) != 42u8,
        vstd::utf8::leading_byte_width_3(c) != 42u8,
        vstd::utf8::leading_byte_width_4(c) != 42u8,
        vstd::utf8::last_continuation_byte(c) != 42u8,
        vstd::utf8::second_last_continuation_byte(c) != 42u8,
        vstd::utf8::third_last_continuation_byte(c) != 42u8,
{
}

proof fn lemma_no_star(s: Chars)
    requires
        !s.contains('*'),
    ensures
        !encode_utf8(s).contains(42u8),
    decreases s.len(),
{
    if s.len() > 0 {
        let t = s.drop_first();
        assert forall|c: char| t.contains(c) implies s.contains(c) by {
            let i = choose|i: int| 0 <= i < t.len() && t[i] == c;
            assert(s[i + 1] == c);
        }
        lemma_no_star(t);
        assert(s.contains(s[0]));
        let c = s[0] as u32;
        vstd::utf8::char_is_scalar(s[0]);
        lemma_star_byte(c);
        let head = vstd::utf8::encode_scalar(c);
        assert(c != 42u32) by {
            if c == 42u32 {
                vstd::utf8::char_u32_cast(s[0], c);
                vstd::utf8::char_u32_cast('*', 42u32);
            }
        }
        let all = encode_utf8(s);
        assert(all == head + encode_utf8(t));
        if all.contains(42u8) {
            let i = choose|i: int| 0 <= i < all.len() && all[i] == 42u8;
            if i < head.len() {
                assert(head[i] == 42u8);
            } else {
                assert(encode_utf8(t)[i - head.len()] == 42u8);
                assert(encode_utf8(t).contains(42u8));
            }
        }
    }
}

/// A text without a star is a pattern for itself alone.
pub proof fn law_plain_text(s: Chars, t: Chars)
    requires
        !s.contains('*'),
    ensures
        glob(encode_utf8(s), encode_utf8(t)) <==> s == t,
{
    lemma_no_star(s);
    law_plain_pattern(encode_utf8(s), encode_utf8(t));
    vstd::utf8::encode_utf8_decode_utf8(s);
    vstd::utf8::encode_utf8_decode_utf8(t);
}

proof fn lemma_bare(s: Chars)
    requires
        s.len() > 0,
        s[0] != '/',
        s.last() != '/',
    ensures
        unslashed(s) == s,
        unslashed(s.push('/')) == s,
        unrooted(s) == s,
{
    let t = s.push('/');
    assert(t.drop_last() =~= s);
    assert(unslashed(s) == s);
    assert(unslashed(t) == unslashed(t.drop_last()));
}

/// A pattern without a slash covers every path of which a part matches it, at
/// any depth. With a slash behind it, that part is a folder: not the last part
/// of a file's path.
pub proof fn law_name_pattern(name: Chars, path: Chars, directory: bool)
    requires
        name.len() > 0,
        !name.contains('/'),
    ensures
        ({
            let parts = pieces(path, '/');
            &&& covers(name, path, directory) <==> exists|i: int|
                0 <= i < parts.len() && glob(encode_utf8(name), encode_utf8(#[trigger] parts[i]))
            &&& covers(name.push('/'), path, directory) <==> exists|i: int|
                0 <= i < parts.len() && (i < parts.len() - 1 || directory) && glob(
                    encode_utf8(name),
                    encode_utf8(#[trigger] parts[i]),
                )
        }),
{
    assert(name.contains(name[0]) && name.contains(name.last()));
    lemma_bare(name);
    let parts = pieces(path, '/');
    let deep = name.push('/');
    if exists|i: int|
        0 <= i < parts.len() && glob(encode_utf8(name), encode_utf8(#[trigger] parts[i])) {
        let i = choose|i: int|
            0 <= i < parts.len() && glob(encode_utf8(name), encode_utf8(#[trigger] parts[i]));
        assert(covers_at(name, parts, directory, i + 1));
    }
    if exists|i: int|
        0 <= i < parts.len() && (i < parts.len() - 1 || directory) && glob(
            encode_utf8(name),
            encode_utf8(#[trigger] parts[i]),
        ) {
        let i = choose|i: int|
            0 <= i < parts.len() && (i < parts.len() - 1 || directory) && glob(
                encode_utf8(name),
                encode_utf8(#[trigger] parts[i]),
            );
        assert(covers_at(deep, parts, directory, i + 1));
    }
    if covers(name, path, directory) {
        let n = choose|n: int| #[trigger] covers_at(name, parts, directory, n);
        assert(glob(encode_utf8(name), encode_utf8(parts[n - 1])));
    }
    if covers(deep, path, directory) {
        let n = choose|n: int| #[trigger] covers_at(deep, parts, directory, n);
        assert(glob(encode_utf8(name), encode_utf8(parts[n - 1])));
    }
}

proof fn lemma_joined_begins(parts: Seq<Chars>, n: int)
    requires
        1 <= n < parts.len(),
    ensures
        exists|rest: Chars|
            joined(parts, seq!['/']) == #[trigger] (joined(parts.take(n), seq!['/']) + seq!['/']
                + rest),
    decreases parts.len(),
{
    let less = parts.drop_last();
    let head = joined(parts.take(n), seq!['/']);
    if n == parts.len() - 1 {
        assert(parts.take(n) =~= less);
        assert(joined(parts, seq!['/']) == head + seq!['/'] + parts.last());
    } else {
        lemma_joined_begins(less, n);
        assert(less.take(n) =~= parts.take(n));
        let rest = choose|rest: Chars|
            joined(less, seq!['/']) == #[trigger] (head + seq!['/'] + rest);
        let more = rest + seq!['/'] + parts.last();
        assert(joined(parts, seq!['/']) =~= head + seq!['/'] + more);
    }
}

/// A pattern with a slash inside it, and no star, covers just the path that it
/// names and what lies below it. A slash in front of a pattern changes nothing.
pub proof fn law_path_pattern(core: Chars, path: Chars, directory: bool)
    requires
        core.contains('/'),
        !core.contains('*'),
        core[0] != '/',
        core.last() != '/',
    ensures
        covers(core, path, directory) <==> path == core || exists|rest: Chars|
            path == #[trigger] (core + seq!['/'] + rest),
        covers(seq!['/'] + core, path, directory) == covers(core, path, directory),
{
    reveal_strlit("/");
    assert("/"@ =~= seq!['/']);
    lemma_bare(core);
    let parts = pieces(path, '/');
    lemma_split_join(path, '/');
    lemma_split_join(core, '/');
    lemma_pieces_shape(path, '/');
    lemma_pieces_shape(core, '/');
    let own = pieces(core, '/');
    if covers(core, path, directory) {
        let n = choose|n: int| #[trigger] covers_at(core, parts, directory, n);
        law_plain_text(core, joined(parts.take(n), seq!['/']));
        if n == parts.len() {
            assert(parts.take(n) =~= parts);
            assert(path == core);
        } else {
            lemma_joined_begins(parts, n);
            assert(exists|rest: Chars| path == #[trigger] (core + seq!['/'] + rest));
        }
    }
    if path == core {
        let n = parts.len() as int;
        assert(parts.take(n) =~= parts);
        law_plain_text(core, joined(parts.take(n), seq!['/']));
        assert(covers_at(core, parts, directory, n));
    }
    if exists|rest: Chars| path == #[trigger] (core + seq!['/'] + rest) {
        let rest = choose|rest: Chars| path == #[trigger] (core + seq!['/'] + rest);
        crate::model::lemma_pieces_concat(core, rest, '/');
        lemma_pieces_shape(rest, '/');
        let n = own.len() as int;
        assert(parts.take(n) =~= own);
        law_plain_text(core, joined(parts.take(n), seq!['/']));
        assert(covers_at(core, parts, directory, n));
    }
    let rooted = seq!['/'] + core;
    assert(rooted.last() == core.last());
    assert(unslashed(rooted) == rooted);
    assert(rooted.drop_first() =~= core);
    assert(unrooted(rooted) == core);
    assert forall|n: int| covers_at(rooted, parts, directory, n) == #[trigger] covers_at(
        core,
        parts,
        directory,
        n,
    ) by {}
    if covers(rooted, path, directory) {
        let n = choose|n: int| #[trigger] covers_at(rooted, parts, directory, n);
        assert(covers_at(core, parts, directory, n));
    }
    if covers(core, path, directory) {
        let n = choose|n: int| #[trigger] covers_at(core, parts, directory, n);
        assert(covers_at(rooted, parts, directory, n));
    }
}

/// Every line of a policy counts, except empty ones and comments; what no line
/// covers is not ignored, but for the library's own files.
pub proof fn law_every_line_counts(lines: Seq<Chars>, path: Chars, directory: bool)
    ensures
        ignored(patterns_of(lines), path, directory) <==> path == ".rowdignore"@ || pieces(
            path,
            '/',
        ).contains(".rowd"@) || exists|i: int|
            0 <= i < lines.len() && trimmed(#[trigger] lines[i]).len() > 0 && trimmed(lines[i])[0]
                != '#' && covers(trimmed(lines[i]), path, directory),
{
    lemma_patterns(lines);
    let patterns = patterns_of(lines);
    if exists|i: int|
        0 <= i < patterns.len() && covers(#[trigger] patterns[i], path, directory) {
        let i = choose|i: int|
            0 <= i < patterns.len() && covers(#[trigger] patterns[i], path, directory);
        assert(patterns.contains(patterns[i]));
        let k = choose|k: int|
            0 <= k < lines.len() && trimmed(#[trigger] lines[k]) == patterns[i] && patterns[i].len()
                > 0 && patterns[i][0] != '#';
        assert(covers(trimmed(lines[k]), path, directory));
    }
    if exists|i: int|
        0 <= i < lines.len() && trimmed(#[trigger] lines[i]).len() > 0 && trimmed(lines[i])[0]
            != '#' && covers(trimmed(lines[i]), path, directory) {
        let i = choose|i: int|
            0 <= i < lines.len() && trimmed(#[trigger] lines[i]).len() > 0 && trimmed(lines[i])[0]
                != '#' && covers(trimmed(lines[i]), path, directory);
        assert(patterns.contains(trimmed(lines[i])));
        let k = choose|k: int| 0 <= k < patterns.len() && patterns[k] == trimmed(lines[i]);
        assert(covers(patterns[k], path, directory));
    }
}

proof fn lemma_patterns(lines: Seq<Chars>)
    ensures
        forall|p: Chars| #[trigger]
            patterns_of(lines).contains(p) <==> exists|i: int|
                0 <= i < lines.len() && trimmed(#[trigger] lines[i]) == p && p.len() > 0 && p[0]
                    != '#',
    decreases lines.len(),
{
    let all = patterns_of(lines);
    if lines.len() > 0 {
        let less = lines.drop_last();
        let n = lines.len() - 1;
        lemma_patterns(less);
        let rest = patterns_of(less);
        assert forall|p: Chars| #[trigger] all.contains(p) <==> exists|i: int|
            0 <= i < lines.len() && trimmed(#[trigger] lines[i]) == p && p.len() > 0 && p[0]
                != '#' by {
            if rest.contains(p) {
                let k = choose|k: int| 0 <= k < rest.len() && rest[k] == p;
                assert(all[k] == p);
                let i = choose|i: int|
                    0 <= i < less.len() && trimmed(#[trigger] less[i]) == p && p.len() > 0 && p[0]
                        != '#';
                assert(lines[i] == less[i]);
            }
            if all.contains(p) && !rest.contains(p) {
                let k = choose|k: int| 0 <= k < all.len() && all[k] == p;
                if k < rest.len() {
                    assert(rest[k] == p);
                }
                assert(trimmed(lines[n]) == p);
            }
            if exists|i: int|
                0 <= i < lines.len() && trimmed(#[trigger] lines[i]) == p && p.len() > 0 && p[0]
                    != '#' {
                let i = choose|i: int|
                    0 <= i < lines.len() && trimmed(#[trigger] lines[i]) == p && p.len() > 0 && p[0]
                        != '#';
                if i < n {
                    assert(less[i] == lines[i]);
                    assert(rest.contains(p));
                } else {
                    assert(all[rest.len() as int] == p);
                }
            }
        }
    } else {
        assert(all =~= Seq::empty());
    }
}

/// A pattern without a star that ends with a slash covers whatever lies below
/// the folder that it names.
pub proof fn law_folder_pattern(folder: Chars, rest: Chars, directory: bool)
    requires
        folder.len() > 0,
        !folder.contains('*'),
        folder[0] != '/',
        folder.last() != '/',
    ensures
        covers(folder.push('/'), folder + seq!['/'] + rest, directory),
{
    reveal_strlit("/");
    assert("/"@ =~= seq!['/']);
    lemma_bare(folder);
    let path = folder + seq!['/'] + rest;
    crate::model::lemma_pieces_concat(folder, rest, '/');
    lemma_pieces_shape(folder, '/');
    lemma_pieces_shape(rest, '/');
    lemma_split_join(folder, '/');
    let own = pieces(folder, '/');
    let parts = pieces(path, '/');
    let n = own.len() as int;
    assert(parts.take(n) =~= own);
    if !folder.contains('/') {
        assert forall|i: int| 0 <= i < folder.len() implies folder[i] != '/' by {
            assert(folder.contains(folder[i]));
        }
        crate::model::lemma_no_separator(folder, '/');
        assert(parts[0] == folder);
    }
    law_plain_text(folder, folder);
    assert(candidate(folder, parts, n) == folder);
    assert(covers_at(folder.push('/'), parts, directory, n));
}

} // verus!
