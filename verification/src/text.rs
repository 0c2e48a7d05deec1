//! Text as sequences of characters: comparison, slicing, trimming, splitting
//! and decimal numbers, each with the mathematical statement of its result.

use vstd::prelude::*;
use vstd::utf8::encode_utf8;

verus! {

/// `String::push` of the standard library: the character is appended.
pub assume_specification[ String::push ](s: &mut String, c: char)
    ensures
        final(s)@ == old(s)@.push(c),
;

/// A sequence of characters.
pub type Chars = Seq<char>;

/// The bytes of `a` come strictly before those of `b` in lexicographic order.
pub open spec fn bytes_before(a: Seq<u8>, b: Seq<u8>) -> bool
    decreases a.len(),
{
    if b.len() == 0 {
        false
    } else if a.len() == 0 {
        true
    } else if a[0] != b[0] {
        a[0] < b[0]
    } else {
        bytes_before(a.drop_first(), b.drop_first())
    }
}

/// The order of strings: that of their UTF-8 bytes.
pub open spec fn before(a: Chars, b: Chars) -> bool {
    bytes_before(encode_utf8(a), encode_utf8(b))
}

proof fn lemma_bytes_before_irreflexive(a: Seq<u8>)
    ensures
        !bytes_before(a, a),
    decreases a.len(),
{
    if a.len() > 0 {
        lemma_bytes_before_irreflexive(a.drop_first());
    }
}

proof fn lemma_bytes_before_transitive(a: Seq<u8>, b: Seq<u8>, c: Seq<u8>)
    requires
        bytes_before(a, b),
        bytes_before(b, c),
    ensures
        bytes_before(a, c),
    decreases a.len(),
{
    if a.len() > 0 && b.len() > 0 && c.len() > 0 && a[0] == b[0] && b[0] == c[0] {
        lemma_bytes_before_transitive(a.drop_first(), b.drop_first(), c.drop_first());
    }
}

proof fn lemma_bytes_before_total(a: Seq<u8>, b: Seq<u8>)
    ensures
        a == b || bytes_before(a, b) || bytes_before(b, a),
    decreases a.len(),
{
    if a.len() == 0 || b.len() == 0 {
        if a.len() == 0 && b.len() == 0 {
            assert(a =~= b);
        }
    } else if a[0] == b[0] {
        lemma_bytes_before_total(a.drop_first(), b.drop_first());
        if a.drop_first() == b.drop_first() {
            assert(a =~= seq![a[0]] + a.drop_first());
            assert(b =~= seq![b[0]] + b.drop_first());
        }
    }
}

/// No string comes before itself.
pub proof fn lemma_before_irreflexive(a: Chars)
    ensures
        !before(a, a),
{
    lemma_bytes_before_irreflexive(encode_utf8(a));
}

/// The order of strings is transitive.
pub proof fn lemma_before_transitive(a: Chars, b: Chars, c: Chars)
    requires
        before(a, b),
        before(b, c),
    ensures
        before(a, c),
{
    lemma_bytes_before_transitive(encode_utf8(a), encode_utf8(b), encode_utf8(c));
}

/// Two different strings are ordered one way or the other.
pub proof fn lemma_before_total(a: Chars, b: Chars)
    ensures
        a == b || before(a, b) || before(b, a),
{
    lemma_bytes_before_total(encode_utf8(a), encode_utf8(b));
    vstd::utf8::encode_utf8_decode_utf8(a);
    vstd::utf8::encode_utf8_decode_utf8(b);
}

/// Of two strings, at most one comes before the other.
pub proof fn lemma_before_asymmetric(a: Chars, b: Chars)
    requires
        before(a, b),
    ensures
        !before(b, a),
        a != b,
{
    if before(b, a) {
        lemma_before_transitive(a, b, a);
    }
    lemma_before_irreflexive(a);
}

/// The three outcomes of a comparison.
#[derive(Clone, Copy, Debug, PartialEq, Eq, Structural)]
pub enum Side {
    Less,
    Same,
    Greater,
}

/// Compares two strings by their UTF-8 bytes.
pub fn compare(a: &str, b: &str) -> (r: Side)
    ensures
        r == Side::Less <==> before(a@, b@),
        r == Side::Same <==> a@ == b@,
        r == Side::Greater <==> before(b@, a@),
{
    let x = a.as_bytes();
    let y = b.as_bytes();
    let mut i: usize = 0;
    proof {
        lemma_before_irreflexive(a@);
        lemma_before_total(a@, b@);
        if before(a@, b@) {
            lemma_before_asymmetric(a@, b@);
        }
        if before(b@, a@) {
            lemma_before_asymmetric(b@, a@);
        }
        assert(x@.skip(0) =~= x@);
        assert(y@.skip(0) =~= y@);
    }
    while i < x.len() && i < y.len()
        invariant
            i <= x@.len(),
            i <= y@.len(),
            x@ == encode_utf8(a@),
            y@ == encode_utf8(b@),
            bytes_before(x@, y@) == bytes_before(x@.skip(i as int), y@.skip(i as int)),
            bytes_before(y@, x@) == bytes_before(y@.skip(i as int), x@.skip(i as int)),
            before(a@, b@) ==> a@ != b@ && !before(b@, a@),
            before(b@, a@) ==> a@ != b@ && !before(a@, b@),
            a@ == b@ || before(a@, b@) || before(b@, a@),
        decreases x@.len() - i,
    {
        proof {
            assert(x@.skip(i as int).drop_first() =~= x@.skip(i + 1));
            assert(y@.skip(i as int).drop_first() =~= y@.skip(i + 1));
        }
        if x[i] < y[i] {
            return Side::Less;
        }
        if y[i] < x[i] {
            return Side::Greater;
        }
        i = i + 1;
    }
    if i < y.len() {
        Side::Less
    } else if i < x.len() {
        Side::Greater
    } else {
        Side::Same
    }
}

/// Whether two strings hold the same characters.
pub fn same(a: &str, b: &str) -> (r: bool)
    ensures
        r == (a@ == b@),
{
    let order = compare(a, b);
    match order {
        Side::Same => true,
        _ => false,
    }
}

/// The length of a string in UTF-8 bytes.
pub fn byte_len(s: &str) -> (n: usize)
    ensures
        n == encode_utf8(s@).len(),
{
    s.as_bytes().len()
}

/// The characters of a string.
pub fn chars_of(s: &str) -> (r: Vec<char>)
    ensures
        r@ == s@,
{
    let mut r: Vec<char> = Vec::new();
    for c in it: s.chars()
        invariant
            it.seq() == s@,
            r@ == s@.take(it.index() as int),
    {
        r.push(c);
        assert(s@.take(it.index() as int + 1) =~= s@.take(it.index() as int).push(c));
    }
    assert(s@.take(s@.len() as int) =~= s@);
    r
}

/// The string made of the characters `from..to`.
pub fn string_of(v: &Vec<char>, from: usize, to: usize) -> (r: String)
    requires
        from <= to <= v@.len(),
    ensures
        r@ == v@.subrange(from as int, to as int),
{
    let mut r = String::new();
    let mut i = from;
    while i < to
        invariant
            from <= i <= to <= v@.len(),
            r@ == v@.subrange(from as int, i as int),
        decreases to - i,
    {
        r.push(v[i]);
        i = i + 1;
        assert(v@.subrange(from as int, i as int) =~= v@.subrange(from as int, i - 1).push(
            v@[i - 1],
        ));
    }
    r
}

/// Unicode's White_Space property.
pub open spec fn white(c: char) -> bool {
    let v = c as u32;
    ||| 0x9 <= v <= 0xd
    ||| v == 0x20
    ||| v == 0x85
    ||| v == 0xa0
    ||| v == 0x1680
    ||| 0x2000 <= v <= 0x200a
    ||| 0x2028 <= v <= 0x2029
    ||| v == 0x202f
    ||| v == 0x205f
    ||| v == 0x3000
}

/// Unicode's general category Cc: the C0 and C1 control codes and delete.
pub open spec fn control(c: char) -> bool {
    let v = c as u32;
    v <= 0x1f || 0x7f <= v <= 0x9f
}

/// Whether a character has the White_Space property.
pub fn is_white(c: char) -> (r: bool)
    ensures
        r == white(c),
{
    let v: u32 = c as u32;
    (0x9 <= v && v <= 0xd) || v == 0x20 || v == 0x85 || v == 0xa0 || v == 0x1680 || (0x2000 <= v
        && v <= 0x200a) || v == 0x2028 || v == 0x2029 || v == 0x202f || v == 0x205f || v == 0x3000
}

/// Whether a character is a control code.
pub fn is_control(c: char) -> (r: bool)
    ensures
        r == control(c),
{
    let v: u32 = c as u32;
    v <= 0x1f || (0x7f <= v && v <= 0x9f)
}

/// `s` without leading white space.
pub open spec fn trim_start(s: Chars) -> Chars
    decreases s.len(),
{
    if s.len() > 0 && white(s[0]) {
        trim_start(s.drop_first())
    } else {
        s
    }
}

/// `s` without trailing white space.
pub open spec fn trim_end(s: Chars) -> Chars
    decreases s.len(),
{
    if s.len() > 0 && white(s.last()) {
        trim_end(s.drop_last())
    } else {
        s
    }
}

/// `s` without white space at either end.
pub open spec fn trimmed(s: Chars) -> Chars {
    trim_end(trim_start(s))
}

/// The string without white space at either end.
pub fn trim(s: &str) -> (r: String)
    ensures
        r@ == trimmed(s@),
{
    let v = chars_of(s);
    let mut from: usize = 0;
    assert(v@.skip(0) =~= v@);
    while from < v.len() && is_white(v[from])
        invariant
            from <= v@.len(),
            trim_start(v@) == trim_start(v@.skip(from as int)),
        decreases v@.len() - from,
    {
        assert(v@.skip(from as int).drop_first() =~= v@.skip(from + 1));
        from = from + 1;
    }
    let mut to: usize = v.len();
    assert(v@.subrange(from as int, to as int) =~= v@.skip(from as int));
    while from < to && is_white(v[to - 1])
        invariant
            from <= to <= v@.len(),
            trimmed(v@) == trim_end(v@.subrange(from as int, to as int)),
        decreases to,
    {
        assert(v@.subrange(from as int, to as int).drop_last() =~= v@.subrange(
            from as int,
            to - 1,
        ));
        to = to - 1;
    }
    string_of(&v, from, to)
}

/// The text between the occurrences of `sep`: one piece more than there are
/// occurrences.
pub open spec fn pieces(s: Chars, sep: char) -> Seq<Chars>
    decreases s.len(),
{
    if s.len() == 0 {
        seq![Seq::<char>::empty()]
    } else {
        let p = pieces(s.drop_last(), sep);
        if s.last() == sep {
            p.push(Seq::<char>::empty())
        } else {
            p.drop_last().push(p.last().push(s.last()))
        }
    }
}

/// The parts in order, with `sep` between neighbours.
pub open spec fn joined(parts: Seq<Chars>, sep: Chars) -> Chars
    decreases parts.len(),
{
    if parts.len() == 0 {
        Seq::<char>::empty()
    } else if parts.len() == 1 {
        parts[0]
    } else {
        joined(parts.drop_last(), sep) + sep + parts.last()
    }
}

/// Splitting yields at least one piece, and no piece holds the separator.
pub proof fn lemma_pieces_shape(s: Chars, sep: char)
    ensures
        pieces(s, sep).len() >= 1,
        forall|i: int|
            0 <= i < pieces(s, sep).len() ==> !(#[trigger] pieces(s, sep)[i]).contains(sep),
    decreases s.len(),
{
    if s.len() > 0 {
        lemma_pieces_shape(s.drop_last(), sep);
        let p = pieces(s.drop_last(), sep);
        if s.last() != sep {
            assert(!p[p.len() - 1].contains(sep));
            assert(!p.last().push(s.last()).contains(sep)) by {
                if p.last().push(s.last()).contains(sep) {
                    let m = choose|m: int|
                        0 <= m < p.last().push(s.last()).len() && p.last().push(s.last())[m] == sep;
                    assert(m < p.last().len());
                    assert(p.last()[m] == sep);
                }
            }
        }
        assert forall|i: int| 0 <= i < pieces(s, sep).len() implies !(#[trigger] pieces(
            s,
            sep,
        )[i]).contains(sep) by {
            if i < p.len() - 1 {
                assert(pieces(s, sep)[i] == p[i]);
            } else if s.last() == sep && i == p.len() - 1 {
                assert(pieces(s, sep)[i] == p[i]);
            }
        }
    }
}

/// Joining the pieces of a split restores the text.
pub proof fn lemma_split_join(s: Chars, sep: char)
    ensures
        joined(pieces(s, sep), seq![sep]) == s,
    decreases s.len(),
{
    lemma_pieces_shape(s, sep);
    if s.len() > 0 {
        let t = s.drop_last();
        lemma_split_join(t, sep);
        lemma_pieces_shape(t, sep);
        let p = pieces(t, sep);
        if s.last() == sep {
            assert(p.push(Seq::<char>::empty()).drop_last() =~= p);
            assert(joined(p.push(Seq::<char>::empty()), seq![sep]) =~= t + seq![sep]);
        } else {
            let q = p.drop_last().push(p.last().push(s.last()));
            assert(q.drop_last() =~= p.drop_last());
            if p.len() == 1 {
                assert(joined(q, seq![sep]) =~= t.push(s.last()));
            } else {
                assert(joined(q, seq![sep]) =~= t.push(s.last()));
            }
        }
        assert(s =~= t.push(s.last()));
    }
}

/// The views of a list of strings.
pub open spec fn views(v: Seq<String>) -> Seq<Chars> {
    v.map_values(|s: String| s@)
}

/// Pushing a string pushes its characters onto the views.
pub proof fn lemma_views_push(v: Seq<String>, s: String)
    ensures
        views(v.push(s)) == views(v).push(s@),
{
    assert(views(v.push(s)) =~= views(v).push(s@));
}

/// The pieces of a string between the occurrences of a character.
pub fn split(s: &str, sep: char) -> (r: Vec<String>)
    ensures
        views(r@) == pieces(s@, sep),
{
    let v = chars_of(s);
    let mut r: Vec<String> = Vec::new();
    let mut from: usize = 0;
    let mut i: usize = 0;
    assert(v@.subrange(0, 0) =~= Seq::<char>::empty());
    assert(v@.take(0) =~= Seq::<char>::empty());
    assert(views(r@).push(v@.subrange(0, 0)) =~= seq![Seq::<char>::empty()]);
    while i < v.len()
        invariant
            from <= i <= v@.len(),
            views(r@).push(v@.subrange(from as int, i as int)) == pieces(v@.take(i as int), sep),
        decreases v@.len() - i,
    {
        proof {
            let t = v@.take(i + 1);
            assert(t.drop_last() =~= v@.take(i as int));
            assert(t.last() == v@[i as int]);
            assert(pieces(v@.take(i as int), sep).last() == v@.subrange(from as int, i as int));
            assert(pieces(v@.take(i as int), sep).drop_last() =~= views(r@));
            assert(v@.subrange(from as int, i + 1) =~= v@.subrange(from as int, i as int).push(
                v@[i as int],
            ));
        }
        if v[i] == sep {
            let piece = string_of(&v, from, i);
            proof {
                lemma_views_push(r@, piece);
                assert(v@.subrange(i + 1, i + 1) =~= Seq::<char>::empty());
            }
            r.push(piece);
            from = i + 1;
        }
        i = i + 1;
    }
    let piece = string_of(&v, from, i);
    proof {
        lemma_views_push(r@, piece);
        assert(v@.take(i as int) =~= v@);
    }
    r.push(piece);
    r
}

/// The strings in order, with `sep` between neighbours.
pub fn join(parts: &Vec<String>, sep: &str) -> (r: String)
    ensures
        r@ == joined(views(parts@), sep@),
{
    let mut r = String::new();
    let mut i: usize = 0;
    assert(views(parts@).take(0) =~= Seq::<Chars>::empty());
    while i < parts.len()
        invariant
            i <= parts@.len(),
            r@ == joined(views(parts@).take(i as int), sep@),
        decreases parts@.len() - i,
    {
        proof {
            let t = views(parts@).take(i + 1);
            assert(t.drop_last() =~= views(parts@).take(i as int));
            assert(t.last() == parts@[i as int]@);
        }
        if i > 0 {
            r.append(sep);
        }
        r.append(parts[i].as_str());
        i = i + 1;
        assert(r@ =~= joined(views(parts@).take(i as int), sep@));
    }
    assert(views(parts@).take(i as int) =~= views(parts@));
    r
}

/// A line without the carriage return that ends it, if there is one.
pub open spec fn without_return(s: Chars) -> Chars {
    if s.len() > 0 && s.last() == '\r' {
        s.drop_last()
    } else {
        s
    }
}

/// The lines of a text: they end at a line feed or at a carriage return and
/// line feed, and the last one needs no end.
pub open spec fn lines_of(s: Chars) -> Seq<Chars> {
    let p = pieces(s, '\n');
    let ended = p.drop_last().map_values(|l: Chars| without_return(l));
    if p.last().len() == 0 {
        ended
    } else {
        ended.push(p.last())
    }
}

/// The lines of a string.
pub fn lines(s: &str) -> (r: Vec<String>)
    ensures
        views(r@) == lines_of(s@),
{
    let p = split(s, '\n');
    proof {
        lemma_pieces_shape(s@, '\n');
    }
    let ghost parts = pieces(s@, '\n');
    assert(p@.len() == parts.len());
    let mut r: Vec<String> = Vec::new();
    let mut i: usize = 0;
    let ghost ended = parts.drop_last().map_values(|l: Chars| without_return(l));
    assert(views(r@) =~= ended.take(0));
    while i < p.len() - 1
        invariant
            p@.len() >= 1,
            i <= p@.len() - 1,
            parts == views(p@),
            ended == parts.drop_last().map_values(|l: Chars| without_return(l)),
            views(r@) == ended.take(i as int),
        decreases p@.len() - i,
    {
        let v = chars_of(p[i].as_str());
        assert(parts[i as int] == v@);
        let line = if v.len() > 0 && v[v.len() - 1] == '\r' {
            assert(v@.subrange(0, v@.len() - 1) =~= v@.drop_last());
            string_of(&v, 0, v.len() - 1)
        } else {
            p[i].clone()
        };
        proof {
            lemma_views_push(r@, line);
            assert(ended.take(i + 1) =~= ended.take(i as int).push(ended[i as int]));
        }
        r.push(line);
        i = i + 1;
    }
    let last = p[i].clone();
    assert(parts.last() == last@);
    assert(ended.take(i as int) =~= ended);
    if !last.as_str().is_empty() {
        proof {
            lemma_views_push(r@, last);
        }
        r.push(last);
    }
    r
}

/// The decimal digit of value `d`.
pub open spec fn digit(d: nat) -> char {
    (('0' as u32) + d) as char
}

/// The decimal notation of a number.
pub open spec fn decimal(n: nat) -> Chars
    decreases n,
{
    if n < 10 {
        seq![digit(n)]
    } else {
        decimal(n / 10).push(digit(n % 10))
    }
}

/// The character of a decimal digit.
fn digit_char(d: u64) -> (c: char)
    requires
        d < 10,
    ensures
        c == digit(d as nat),
{
    if d == 0 {
        '0'
    } else if d == 1 {
        '1'
    } else if d == 2 {
        '2'
    } else if d == 3 {
        '3'
    } else if d == 4 {
        '4'
    } else if d == 5 {
        '5'
    } else if d == 6 {
        '6'
    } else if d == 7 {
        '7'
    } else if d == 8 {
        '8'
    } else {
        '9'
    }
}

/// A number in decimal notation.
pub fn number(n: u64) -> (r: String)
    ensures
        r@ == decimal(n as nat),
    decreases n,
{
    if n < 10 {
        let mut r = String::new();
        r.push(digit_char(n));
        assert(r@ =~= decimal(n as nat));
        r
    } else {
        let mut r = number(n / 10);
        r.push(digit_char(n % 10));
        r
    }
}

/// Whether `s` begins with `prefix`.
pub open spec fn begins(s: Chars, prefix: Chars) -> bool {
    s.len() >= prefix.len() && s.take(prefix.len() as int) == prefix
}

/// Whether `s` ends with `suffix`.
pub open spec fn ends(s: Chars, suffix: Chars) -> bool {
    s.len() >= suffix.len() && s.skip(s.len() - suffix.len()) == suffix
}

/// The rest of a string behind a prefix, if it begins with it.
pub fn strip_prefix(s: &str, prefix: &str) -> (r: Option<String>)
    ensures
        r is Some <==> begins(s@, prefix@),
        r is Some ==> r->0@ == s@.skip(prefix@.len() as int),
{
    let v = chars_of(s);
    let p = chars_of(prefix);
    if v.len() < p.len() {
        return None;
    }
    let mut i: usize = 0;
    while i < p.len()
        invariant
            v@ == s@,
            p@ == prefix@,
            i <= p@.len() <= v@.len(),
            forall|j: int| 0 <= j < i ==> v@[j] == p@[j],
        decreases p@.len() - i,
    {
        if v[i] != p[i] {
            proof {
                if begins(v@, p@) {
                    assert(v@.take(p@.len() as int)[i as int] == p@[i as int]);
                }
            }
            return None;
        }
        i = i + 1;
    }
    assert(v@.take(p@.len() as int) =~= p@);
    assert(v@.subrange(p@.len() as int, v@.len() as int) =~= v@.skip(p@.len() as int));
    Some(string_of(&v, p.len(), v.len()))
}

/// The rest of a string before a suffix, if it ends with it.
pub fn strip_suffix(s: &str, suffix: &str) -> (r: Option<String>)
    ensures
        r is Some <==> ends(s@, suffix@),
        r is Some ==> r->0@ == s@.take(s@.len() - suffix@.len()),
{
    let v = chars_of(s);
    let p = chars_of(suffix);
    if v.len() < p.len() {
        return None;
    }
    let start: usize = v.len() - p.len();
    let mut i: usize = 0;
    while i < p.len()
        invariant
            v@ == s@,
            p@ == suffix@,
            v@.len() == v.len(),
            start == v@.len() - p@.len(),
            i <= p@.len() <= v@.len(),
            forall|j: int| 0 <= j < i ==> v@[start + j] == p@[j],
        decreases p@.len() - i,
    {
        if v[start + i] != p[i] {
            proof {
                if ends(v@, p@) {
                    assert(v@.skip(start as int)[i as int] == p@[i as int]);
                }
            }
            return None;
        }
        i = i + 1;
    }
    assert(v@.skip(start as int) =~= p@);
    assert(v@.subrange(0, start as int) =~= v@.take(start as int));
    Some(string_of(&v, 0, start))
}

/// Copies a list of strings.
pub fn copy_strings(v: &Vec<String>) -> (r: Vec<String>)
    ensures
        views(r@) == views(v@),
{
    let mut r: Vec<String> = Vec::new();
    let mut i: usize = 0;
    assert(views(r@) =~= views(v@).take(0));
    while i < v.len()
        invariant
            i <= v@.len(),
            views(r@) == views(v@).take(i as int),
        decreases v@.len() - i,
    {
        let s = v[i].clone();
        proof {
            lemma_views_push(r@, s);
            assert(views(v@).take(i + 1) =~= views(v@).take(i as int).push(views(v@)[i as int]));
        }
        r.push(s);
        i = i + 1;
    }
    assert(views(v@).take(i as int) =~= views(v@));
    r
}

/// Whether a list names a string.
pub fn names(v: &Vec<String>, s: &str) -> (r: bool)
    ensures
        r == views(v@).contains(s@),
{
    let mut i: usize = 0;
    while i < v.len()
        invariant
            i <= v@.len(),
            forall|j: int| 0 <= j < i ==> views(v@)[j] != s@,
        decreases v@.len() - i,
    {
        if same(v[i].as_str(), s) {
            assert(views(v@)[i as int] == s@);
            return true;
        }
        i = i + 1;
    }
    false
}

proof fn lemma_trim_start(s: Chars)
    ensures
        exists|a: int| 0 <= a <= s.len() && trim_start(s) == s.skip(a),
        trim_start(s).len() > 0 ==> !white(trim_start(s)[0]),
    decreases s.len(),
{
    if s.len() > 0 && white(s[0]) {
        lemma_trim_start(s.drop_first());
        let t = s.drop_first();
        let a = choose|a: int| 0 <= a <= t.len() && trim_start(t) == t.skip(a);
        assert(t.skip(a) =~= s.skip(a + 1));
    } else {
        assert(s.skip(0) =~= s);
    }
}

proof fn lemma_trim_end(s: Chars)
    ensures
        exists|b: int| 0 <= b <= s.len() && trim_end(s) == s.take(b),
        trim_end(s).len() > 0 ==> !white(trim_end(s).last()),
    decreases s.len(),
{
    if s.len() > 0 && white(s.last()) {
        lemma_trim_end(s.drop_last());
        let t = s.drop_last();
        let b = choose|b: int| 0 <= b <= t.len() && trim_end(t) == t.take(b);
        assert(t.take(b) =~= s.take(b));
    } else {
        assert(s.take(s.len() as int) =~= s);
    }
}

/// What is left of a text without white space around it neither begins nor
/// ends with white space, holds nothing that the text does not hold, and stays
/// as it is when it is trimmed again.
pub proof fn lemma_trimmed(s: Chars)
    ensures
        trimmed(s).len() > 0 ==> !white(trimmed(s)[0]) && !white(trimmed(s).last()),
        trimmed(trimmed(s)) == trimmed(s),
        forall|c: char| #[trigger] trimmed(s).contains(c) ==> s.contains(c),
{
    lemma_trim_start(s);
    let t = trim_start(s);
    lemma_trim_end(t);
    let u = trimmed(s);
    let a = choose|a: int| 0 <= a <= s.len() && t == s.skip(a);
    let b = choose|b: int| 0 <= b <= t.len() && u == t.take(b);
    if u.len() > 0 {
        assert(u[0] == t[0]);
        assert(trim_start(u) == u);
        assert(trim_end(u) == u);
    } else {
        assert(trim_start(u) == u);
        assert(trim_end(u) == u);
    }
    assert forall|c: char| #[trigger] u.contains(c) implies s.contains(c) by {
        let k = choose|k: int| 0 <= k < u.len() && u[k] == c;
        assert(s[a + k] == c);
    }
}

proof fn lemma_trim_start_tail(s: Chars)
    requires
        s.len() > 0,
        white(s.last()),
    ensures
        trim_start(s).len() == 0 ==> trim_start(s.drop_last()).len() == 0,
        trim_start(s).len() > 0 ==> trim_start(s).last() == s.last() && trim_start(s.drop_last())
            == trim_start(s).drop_last(),
    decreases s.len(),
{
    if s.len() == 1 {
        assert(s[0] == s.last());
        assert(s.drop_first() =~= Seq::<char>::empty());
        assert(trim_start(s) == trim_start(s.drop_first()));
        assert(s.drop_last() =~= Seq::<char>::empty());
    } else if white(s[0]) {
        lemma_trim_start_tail(s.drop_first());
        assert(s.drop_last().drop_first() =~= s.drop_first().drop_last());
        assert(s.drop_last()[0] == s[0]);
    } else {
        assert(s.drop_last()[0] == s[0]);
    }
}

/// White space at the end does not matter to what trimming leaves.
pub proof fn lemma_trimmed_tail(s: Chars)
    requires
        s.len() > 0,
        white(s.last()),
    ensures
        trimmed(s.drop_last()) == trimmed(s),
{
    lemma_trim_start_tail(s);
    let t = trim_start(s);
    if t.len() > 0 {
        assert(trim_end(t) == trim_end(t.drop_last()));
    } else {
        assert(t =~= Seq::<char>::empty());
        assert(trim_start(s.drop_last()) =~= Seq::<char>::empty());
    }
}

/// Every line of a text is one of its lines, without its end: a line feed, or a
/// carriage return and a line feed. A text without a line feed is one line, or
/// none if it is empty.
pub proof fn law_lines_one_by_one(line: Chars, rest: Chars)
    requires
        !line.contains('\n'),
        line.len() == 0 || line.last() != '\r',
    ensures
        lines_of(line + seq!['\n'] + rest) == seq![line] + lines_of(rest),
        lines_of(line.push('\r') + seq!['\n'] + rest) == seq![line] + lines_of(rest),
        line.len() > 0 ==> lines_of(line) == seq![line],
        lines_of(Seq::empty()) == Seq::<Chars>::empty(),
{
    lemma_line(line, rest);
    let back = line.push('\r');
    assert(!back.contains('\n')) by {
        if back.contains('\n') {
            let i = choose|i: int| 0 <= i < back.len() && back[i] == '\n';
            assert(line[i] == '\n');
        }
    }
    lemma_line(back, rest);
    assert(back.drop_last() =~= line);
    assert(without_return(line) =~= line);
    assert(without_return(back) =~= line);
    assert forall|i: int| 0 <= i < line.len() implies line[i] != '\n' by {
        assert(line.contains(line[i]));
    }
    crate::model::lemma_no_separator(line, '\n');
    crate::model::lemma_no_separator(Seq::empty(), '\n');
    if line.len() > 0 {
        assert(lines_of(line) =~= seq![line]);
    }
    assert(lines_of(Seq::empty()) =~= Seq::<Chars>::empty());
}

proof fn lemma_line(line: Chars, rest: Chars)
    requires
        !line.contains('\n'),
    ensures
        lines_of(line + seq!['\n'] + rest) == seq![without_return(line)] + lines_of(rest),
{
    assert forall|i: int| 0 <= i < line.len() implies line[i] != '\n' by {
        assert(line.contains(line[i]));
    }
    crate::model::lemma_no_separator(line, '\n');
    crate::model::lemma_pieces_concat(line, rest, '\n');
    lemma_pieces_shape(rest, '\n');
    let p = pieces(rest, '\n');
    let q = pieces(line + seq!['\n'] + rest, '\n');
    assert(q == seq![line] + p);
    assert(q.last() == p.last());
    assert(q.drop_last() =~= seq![line] + p.drop_last());
    let f = |l: Chars| without_return(l);
    assert(q.drop_last().map_values(f) =~= seq![without_return(line)] + p.drop_last().map_values(f));
    assert(lines_of(line + seq!['\n'] + rest) =~= seq![without_return(line)] + lines_of(rest));
}

/// The number that decimal digits write.
pub open spec fn value_of(s: Chars) -> nat
    decreases s.len(),
{
    if s.len() == 0 {
        0
    } else {
        10 * value_of(s.drop_last()) + (s.last() as u32 - '0' as u32) as nat
    }
}

/// A number is written in digits that have its value, without a zero in front.
pub proof fn law_decimal_is_the_number(n: nat)
    ensures
        value_of(decimal(n)) == n,
        decimal(n).len() > 0,
        forall|i: int| 0 <= i < decimal(n).len() ==> '0' <= #[trigger] decimal(n)[i] <= '9',
        n > 0 ==> decimal(n)[0] != '0',
    decreases n,
{
    if n < 10 {
        let s = seq![digit(n)];
        assert(s.drop_last() =~= Seq::<char>::empty());
        assert(value_of(s.drop_last()) == 0);
        assert(decimal(n) == s);
        assert(s.last() as u32 == '0' as u32 + n);
    } else {
        let m = n / 10;
        law_decimal_is_the_number(m);
        let s = decimal(n);
        assert(s == decimal(m).push(digit(n % 10)));
        assert(s.drop_last() =~= decimal(m));
        assert(s.last() as u32 == '0' as u32 + n % 10);
        assert(n == 10 * m + n % 10);
        assert(s[0] == decimal(m)[0]);
        assert forall|i: int| 0 <= i < s.len() implies '0' <= #[trigger] s[i] <= '9' by {
            if i < decimal(m).len() {
                assert(s[i] == decimal(m)[i]);
            }
        }
    }
}

proof fn lemma_trim_end_of(core: Chars, post: Chars)
    requires
        core.len() > 0 ==> !white(core.last()),
        forall|i: int| 0 <= i < post.len() ==> white(#[trigger] post[i]),
    ensures
        trim_end(core + post) == core,
    decreases post.len(),
{
    if post.len() == 0 {
        assert(core + post =~= core);
    } else {
        let less = post.drop_last();
        assert forall|i: int| 0 <= i < less.len() implies white(#[trigger] less[i]) by {
            assert(less[i] == post[i]);
        }
        lemma_trim_end_of(core, less);
        assert((core + post).drop_last() =~= core + less);
        assert((core + post).last() == post[post.len() - 1]);
    }
}

/// Trimming takes the white space at both ends and nothing else.
pub proof fn law_trimming(pre: Chars, core: Chars, post: Chars)
    requires
        forall|i: int| 0 <= i < pre.len() ==> white(#[trigger] pre[i]),
        forall|i: int| 0 <= i < post.len() ==> white(#[trigger] post[i]),
        core.len() > 0 ==> !white(core[0]) && !white(core.last()),
    ensures
        trimmed(pre + core + post) == core,
    decreases pre.len(),
{
    let s = pre + core + post;
    if pre.len() > 0 {
        let less = pre.drop_first();
        assert forall|i: int| 0 <= i < less.len() implies white(#[trigger] less[i]) by {
            assert(less[i] == pre[i + 1]);
        }
        law_trimming(less, core, post);
        assert(s.drop_first() =~= less + core + post);
        assert(s[0] == pre[0]);
    } else if core.len() > 0 {
        assert(s =~= core + post);
        assert(s[0] == core[0]);
        lemma_trim_end_of(core, post);
    } else {
        assert(s =~= post);
        lemma_all_white(post);
        assert(core =~= Seq::<char>::empty());
        assert(trim_end(Seq::<char>::empty()) == Seq::<char>::empty());
    }
}

proof fn lemma_all_white(s: Chars)
    requires
        forall|i: int| 0 <= i < s.len() ==> white(#[trigger] s[i]),
    ensures
        trim_start(s) == Seq::<char>::empty(),
    decreases s.len(),
{
    if s.len() > 0 {
        let less = s.drop_first();
        assert forall|i: int| 0 <= i < less.len() implies white(#[trigger] less[i]) by {
            assert(less[i] == s[i + 1]);
        }
        lemma_all_white(less);
    } else {
        assert(s =~= Seq::<char>::empty());
    }
}

} // verus!
