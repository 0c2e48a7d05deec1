//! Ordered sets and maps keyed by strings.
//!
//! Both keep their keys strictly ascending by UTF-8 bytes, so walking one by
//! index visits its keys in ascending order.

use crate::text::{before, compare, Chars, Side};
use vstd::prelude::*;

verus! {

/// The strings stand in strictly ascending order.
pub open spec fn ascending(s: Seq<Chars>) -> bool {
    forall|i: int, j: int| #![trigger s[i], s[j]] 0 <= i < j < s.len() ==> before(s[i], s[j])
}

/// `s` names each member of `set` once, in ascending order.
pub open spec fn lists(s: Seq<Chars>, set: Set<Chars>) -> bool {
    &&& ascending(s)
    &&& forall|k: Chars| #[trigger] s.contains(k) <==> set.contains(k)
}

/// An ascending sequence names no string twice.
pub proof fn lemma_ascending_distinct(s: Seq<Chars>)
    requires
        ascending(s),
    ensures
        s.no_duplicates(),
{
    assert forall|i: int, j: int| 0 <= i < s.len() && 0 <= j < s.len() && i != j implies s[i]
        != s[j] by {
        if i < j {
            crate::text::lemma_before_asymmetric(s[i], s[j]);
        } else {
            crate::text::lemma_before_asymmetric(s[j], s[i]);
        }
    }
}

/// A set of strings has one ascending listing at most.
pub proof fn lemma_listing_unique(s: Seq<Chars>, t: Seq<Chars>, set: Set<Chars>)
    requires
        lists(s, set),
        lists(t, set),
    ensures
        s == t,
    decreases s.len(),
{
    if s.len() == 0 {
        if t.len() > 0 {
            assert(t.contains(t[0]));
            assert(s.contains(t[0]));
        }
        assert(s =~= t);
    } else {
        assert(s.contains(s.last()));
        assert(t.contains(s.last()));
        let i = choose|i: int| 0 <= i < t.len() && t[i] == s.last();
        assert(t.contains(t.last()));
        assert(s.contains(t.last()));
        let j = choose|j: int| 0 <= j < s.len() && s[j] == t.last();
        if i < t.len() - 1 {
            assert(before(t[i], t.last()));
            if j < s.len() - 1 {
                assert(before(s[j], s.last()));
                crate::text::lemma_before_asymmetric(t[i], t.last());
            }
            crate::text::lemma_before_irreflexive(t[i]);
        }
        assert(s.last() == t.last());
        lemma_ascending_distinct(s);
        lemma_ascending_distinct(t);
        let rest = set.remove(s.last());
        assert forall|k: Chars| #[trigger] s.drop_last().contains(k) <==> rest.contains(k) by {
            if s.drop_last().contains(k) {
                let m = choose|m: int| 0 <= m < s.drop_last().len() && s.drop_last()[m] == k;
                assert(s[m] == k);
                assert(s.contains(k));
            }
            if rest.contains(k) {
                assert(s.contains(k));
                let m = choose|m: int| 0 <= m < s.len() && s[m] == k;
                assert(s.drop_last()[m] == k);
            }
        }
        assert forall|k: Chars| #[trigger] t.drop_last().contains(k) <==> rest.contains(k) by {
            if t.drop_last().contains(k) {
                let m = choose|m: int| 0 <= m < t.drop_last().len() && t.drop_last()[m] == k;
                assert(t[m] == k);
                assert(t.contains(k));
            }
            if rest.contains(k) {
                assert(t.contains(k));
                let m = choose|m: int| 0 <= m < t.len() && t[m] == k;
                assert(t.drop_last()[m] == k);
            }
        }
        lemma_listing_unique(s.drop_last(), t.drop_last(), rest);
        assert(s =~= s.drop_last().push(s.last()));
        assert(t =~= t.drop_last().push(t.last()));
    }
}

/// A value that can be copied without a change to what it stands for.
pub trait Duplicate: View + Sized {
    fn duplicate(&self) -> (r: Self)
        ensures
            r@ == self@,
    ;
}

impl Duplicate for u64 {
    fn duplicate(&self) -> (r: Self) {
        *self
    }
}

impl Duplicate for String {
    fn duplicate(&self) -> (r: Self) {
        self.clone()
    }
}

/// A map from strings to values.
pub struct StringMap<V> {
    items: Vec<(String, V)>,
}

impl<V: View> View for StringMap<V> {
    type V = Map<Chars, V::V>;

    closed spec fn view(&self) -> Map<Chars, V::V> {
        Map::new(
            |k: Chars| self.order().contains(k),
            |k: Chars| self.items@[self.order().index_of(k)].1@,
        )
    }
}

impl<V> StringMap<V> {
    /// The keys in ascending order.
    pub closed spec fn order(&self) -> Seq<Chars> {
        self.items@.map_values(|p: (String, V)| p.0@)
    }

    #[verifier::type_invariant]
    closed spec fn well_formed(&self) -> bool {
        ascending(self.order())
    }
}

/// Where `key` stands among ascending items, or where it belongs.
fn locate<V>(items: &Vec<(String, V)>, key: &str) -> (r: (bool, usize))
    requires
        ascending(items@.map_values(|p: (String, V)| p.0@)),
    ensures
        r.1 <= items@.len(),
        r.0 ==> r.1 < items@.len() && items@[r.1 as int].0@ == key@,
        forall|i: int| 0 <= i < r.1 ==> before(#[trigger] items@[i].0@, key@),
        forall|i: int|
            r.1 <= i < items@.len() && !(r.0 && i == r.1) ==> before(
                key@,
                #[trigger] items@[i].0@,
            ),
{
    let ghost keys = items@.map_values(|p: (String, V)| p.0@);
    let mut low: usize = 0;
    let mut high: usize = items.len();
    while low < high
        invariant
            keys == items@.map_values(|p: (String, V)| p.0@),
            ascending(keys),
            low <= high <= items@.len(),
            forall|i: int| 0 <= i < low ==> before(#[trigger] items@[i].0@, key@),
            forall|i: int| high <= i < items@.len() ==> before(key@, #[trigger] items@[i].0@),
        decreases high - low,
    {
        let middle: usize = low + (high - low) / 2;
        assert(keys[middle as int] == items@[middle as int].0@);
        match compare(items[middle].0.as_str(), key) {
            Side::Same => {
                proof {
                    assert forall|i: int| 0 <= i < middle implies before(
                        #[trigger] items@[i].0@,
                        key@,
                    ) by {
                        assert(keys[i] == items@[i].0@);
                    }
                    assert forall|i: int| middle < i < items@.len() implies before(
                        key@,
                        #[trigger] items@[i].0@,
                    ) by {
                        assert(keys[i] == items@[i].0@);
                    }
                }
                return (true, middle);
            },
            Side::Less => {
                proof {
                    assert forall|i: int| 0 <= i < middle + 1 implies before(
                        #[trigger] items@[i].0@,
                        key@,
                    ) by {
                        assert(keys[i] == items@[i].0@);
                        if i < middle {
                            crate::text::lemma_before_transitive(
                                keys[i],
                                keys[middle as int],
                                key@,
                            );
                        }
                    }
                }
                low = middle + 1;
            },
            Side::Greater => {
                proof {
                    assert forall|i: int| middle <= i < items@.len() implies before(
                        key@,
                        #[trigger] items@[i].0@,
                    ) by {
                        assert(keys[i] == items@[i].0@);
                        if middle < i {
                            crate::text::lemma_before_transitive(
                                key@,
                                keys[middle as int],
                                keys[i],
                            );
                        }
                    }
                }
                high = middle;
            },
        }
    }
    (false, low)
}

/// `now` is `was` with one pair put at `at`, in place of the pair there if `found`.
spec fn one_put<V>(was: Seq<(String, V)>, now: Seq<(String, V)>, at: int, found: bool) -> bool {
    &&& 0 <= at <= was.len()
    &&& found ==> at < was.len()
    &&& now.len() == was.len() + (if found { 0int } else { 1int })
    &&& forall|i: int| 0 <= i < at ==> #[trigger] now[i] == was[i]
    &&& forall|i: int|
        at < i < now.len() ==> #[trigger] now[i] == was[if found { i } else { i - 1 }]
}

/// `at` separates the keys below `k` from those above it.
spec fn place_of<V>(was: Seq<(String, V)>, at: int, found: bool, k: Chars) -> bool {
    &&& found ==> was[at].0@ == k
    &&& forall|i: int| 0 <= i < at ==> before(#[trigger] was[i].0@, k)
    &&& forall|i: int|
        at <= i < was.len() && !(found && i == at) ==> before(k, #[trigger] was[i].0@)
}

proof fn lemma_inserted_keys<V>(
    was: Seq<(String, V)>,
    now: Seq<(String, V)>,
    at: int,
    found: bool,
    k: Chars,
)
    requires
        ascending(was.map_values(|p: (String, V)| p.0@)),
        one_put(was, now, at, found),
        place_of(was, at, found, k),
        now[at].0@ == k,
    ensures
        ascending(now.map_values(|p: (String, V)| p.0@)),
{
    let old_keys = was.map_values(|p: (String, V)| p.0@);
    let keys = now.map_values(|p: (String, V)| p.0@);
    assert forall|i: int, j: int| #![trigger keys[i], keys[j]] 0 <= i < j < keys.len() implies before(
        keys[i],
        keys[j],
    ) by {
        let i2 = if i < at || found { i } else { i - 1 };
        let j2 = if j < at || found { j } else { j - 1 };
        if i != at {
            assert(now[i] == was[i2]);
            assert(keys[i] == old_keys[i2]);
        }
        if j != at {
            assert(now[j] == was[j2]);
            assert(keys[j] == old_keys[j2]);
        }
        if i == at {
            assert(before(k, was[j2].0@));
        } else if j == at {
            assert(before(was[i2].0@, k));
        }
    }
}

proof fn lemma_inserted_view<V: View>(
    was: StringMap<V>,
    now: StringMap<V>,
    at: int,
    found: bool,
    k: Chars,
    v: V::V,
)
    requires
        ascending(was.order()),
        ascending(now.order()),
        one_put(was.items@, now.items@, at, found),
        place_of(was.items@, at, found, k),
        now.items@[at].0@ == k,
        now.items@[at].1@ == v,
    ensures
        now@ == was@.insert(k, v),
{
    was.lemma_view();
    now.lemma_view();
    let old_keys = was.order();
    let keys = now.order();
    assert(now.items@[at].0@ == k);
    assert(keys[at] == k);
    assert forall|x: Chars| #[trigger] now@.dom().contains(x) implies was@.insert(
        k,
        v,
    ).dom().contains(x) && now@[x] == was@.insert(k, v)[x] by {
        assert(keys.contains(x));
        let i = choose|i: int| 0 <= i < keys.len() && keys[i] == x;
        assert(now@[keys[i]] == now.items@[i].1@);
        if i != at {
            let i2 = if i < at || found { i } else { i - 1 };
            assert(now.items@[i] == was.items@[i2]);
            assert(old_keys[i2] == x);
            assert(was@[old_keys[i2]] == was.items@[i2].1@);
            crate::text::lemma_before_irreflexive(k);
            assert(before(was.items@[i2].0@, k) || before(k, was.items@[i2].0@));
        }
    }
    assert forall|x: Chars| was@.insert(k, v).dom().contains(x) implies #[trigger] now@.dom().contains(
        x,
    ) by {
        if x == k {
            assert(now@.dom().contains(now.order()[at]));
        } else {
            assert(old_keys.contains(x));
            let i = choose|i: int| 0 <= i < old_keys.len() && old_keys[i] == x;
            assert(was.items@[i].0@ == x);
            let i2 = if i < at || found { i } else { i + 1 };
            assert(now.items@[i2] == was.items@[i]);
            assert(keys[i2] == x);
            assert(now@.dom().contains(keys[i2]));
        }
    }
    assert(now@ =~= was@.insert(k, v));
}

impl<V: View> StringMap<V> {
    /// A map without keys.
    pub fn new() -> (r: Self)
        ensures
            r@ == Map::<Chars, V::V>::empty(),
            r.order() == Seq::<Chars>::empty(),
    {
        let r = StringMap { items: Vec::new() };
        assert(r.order() =~= Seq::<Chars>::empty());
        assert(r@ =~= Map::<Chars, V::V>::empty());
        r
    }

    proof fn lemma_view(&self)
        requires
            ascending(self.order()),
        ensures
            lists(self.order(), self@.dom()),
            self.order().len() == self.items@.len(),
            forall|i: int| 0 <= i < self.items@.len() ==> self.order()[i] == (#[trigger] self.items@[i]).0@,
            forall|i: int|
                0 <= i < self.items@.len() ==> self@.dom().contains(self.order()[i]) && self@[self.order()[i]]
                    == (#[trigger] self.items@[i]).1@,
            self@.dom().finite(),
            self@.dom().len() == self.items@.len(),
    {
        let keys = self.order();
        lemma_ascending_distinct(keys);
        assert forall|i: int| 0 <= i < self.items@.len() implies self@.dom().contains(keys[i])
            && self@[keys[i]] == (#[trigger] self.items@[i]).1@ by {
            assert(keys.contains(keys[i]));
            let j = keys.index_of(keys[i]);
            assert(0 <= j < keys.len() && keys[j] == keys[i]);
        }
        assert(self@.dom() =~= keys.to_set());
        keys.unique_seq_to_set();
    }

    /// How many keys the map has.
    pub fn len(&self) -> (n: usize)
        ensures
            n == self@.dom().len(),
            n == self.order().len(),
            self@.dom().finite(),
            lists(self.order(), self@.dom()),
    {
        proof {
            use_type_invariant(self);
            self.lemma_view();
        }
        self.items.len()
    }

    /// The value stored under a key.
    pub fn get(&self, key: &str) -> (r: Option<&V>)
        ensures
            r is Some <==> self@.dom().contains(key@),
            r is Some ==> r->0@ == self@[key@],
    {
        proof {
            use_type_invariant(self);
            self.lemma_view();
        }
        let (found, at) = locate(&self.items, key);
        proof {
            if found {
                assert(self.order()[at as int] == key@);
            } else {
                if self@.dom().contains(key@) {
                    assert(self.order().contains(key@));
                    let i = choose|i: int| 0 <= i < self.order().len() && self.order()[i] == key@;
                    assert(self.items@[i].0@ == key@);
                    crate::text::lemma_before_irreflexive(key@);
                }
            }
        }
        if found {
            Some(&self.items[at].1)
        } else {
            None
        }
    }

    /// Whether a key is present.
    pub fn contains(&self, key: &str) -> (r: bool)
        ensures
            r == self@.dom().contains(key@),
    {
        match self.get(key) {
            Some(_) => true,
            None => false,
        }
    }

    /// The key at a position of the ascending order.
    pub fn key_at(&self, i: usize) -> (r: &String)
        requires
            i < self.order().len(),
        ensures
            r@ == self.order()[i as int],
            self@.dom().contains(r@),
    {
        proof {
            use_type_invariant(self);
            self.lemma_view();
            assert(self.order()[i as int] == self.items@[i as int].0@);
        }
        &self.items[i].0
    }

    /// The value at a position of the ascending order.
    pub fn value_at(&self, i: usize) -> (r: &V)
        requires
            i < self.order().len(),
        ensures
            self@.dom().contains(self.order()[i as int]),
            r@ == self@[self.order()[i as int]],
    {
        proof {
            use_type_invariant(self);
            self.lemma_view();
            assert(self.order()[i as int] == self.items@[i as int].0@);
        }
        &self.items[i].1
    }

    /// Stores a value under a key, replacing the one that was there.
    pub fn insert(&mut self, key: String, value: V)
        ensures
            final(self)@ == old(self)@.insert(key@, value@),
    {
        let mut items: Vec<(String, V)> = Vec::new();
        proof {
            use_type_invariant(&*self);
            self.lemma_view();
        }
        let ghost before_self = *self;
        let ghost before_items = self.items@;
        std::mem::swap(&mut items, &mut self.items);
        let (found, at) = locate(&items, key.as_str());
        let ghost k = key@;
        let ghost v = value@;
        if found {
            items.remove(at);
        }
        items.insert(at, (key, value));
        proof {
            lemma_inserted_keys(before_items, items@, at as int, found, k);
        }
        self.items = items;
        proof {
            lemma_inserted_view(before_self, *self, at as int, found, k, v);
        }
    }

    /// Takes a key out of the map; the result says whether it was there.
    pub fn remove(&mut self, key: &str) -> (r: bool)
        ensures
            final(self)@ == old(self)@.remove(key@),
            r == old(self)@.dom().contains(key@),
    {
        proof {
            use_type_invariant(&*self);
            self.lemma_view();
        }
        let ghost before_keys = self.order();
        let ghost before_items = self.items@;
        let ghost before_view = self@;
        let (found, at) = locate(&self.items, key);
        if !found {
            proof {
                if self@.dom().contains(key@) {
                    assert(self.order().contains(key@));
                    let i = choose|i: int| 0 <= i < self.order().len() && self.order()[i] == key@;
                    assert(self.items@[i].0@ == key@);
                    crate::text::lemma_before_irreflexive(key@);
                }
                assert(self@ =~= before_view.remove(key@));
            }
            return false;
        }
        let mut items: Vec<(String, V)> = Vec::new();
        std::mem::swap(&mut items, &mut self.items);
        items.remove(at);
        proof {
            let keys = items@.map_values(|p: (String, V)| p.0@);
            assert forall|i: int, j: int|
                #![trigger keys[i], keys[j]]
                0 <= i < j < keys.len() implies before(keys[i], keys[j]) by {
                let i2 = if i < at { i } else { i + 1 };
                let j2 = if j < at { j } else { j + 1 };
                assert(keys[i] == before_keys[i2]);
                assert(keys[j] == before_keys[j2]);
            }
        }
        self.items = items;
        proof {
            self.lemma_view();
            let keys = self.order();
            assert(before_keys[at as int] == key@);
            assert forall|x: Chars| #[trigger] self@.dom().contains(x) <==> before_view.remove(
                key@,
            ).dom().contains(x) by {
                if self@.dom().contains(x) {
                    assert(keys.contains(x));
                    let i = choose|i: int| 0 <= i < keys.len() && keys[i] == x;
                    let i2 = if i < at { i } else { i + 1 };
                    assert(keys[i] == before_keys[i2]);
                    assert(before_keys.contains(x));
                    assert(before(before_keys[i2], key@) || before(key@, before_keys[i2]));
                    crate::text::lemma_before_irreflexive(x);
                }
                if before_view.dom().contains(x) && x != key@ {
                    assert(before_keys.contains(x));
                    let i = choose|i: int| 0 <= i < before_keys.len() && before_keys[i] == x;
                    let i2 = if i < at { i } else { i - 1 };
                    assert(keys[i2] == x);
                    assert(keys.contains(x));
                }
            }
            assert forall|x: Chars| self@.dom().contains(x) implies #[trigger] self@[x]
                == before_view.remove(key@)[x] by {
                assert(keys.contains(x));
                let i = choose|i: int| 0 <= i < keys.len() && keys[i] == x;
                let i2 = if i < at { i } else { i + 1 };
                assert(self@[keys[i]] == self.items@[i].1@);
                assert(before_view[before_keys[i2]] == before_items[i2].1@);
                assert(keys[i] == before_keys[i2]);
            }
            assert(self@ =~= before_view.remove(key@));
        }
        true
    }
}

impl<V: Duplicate> Duplicate for StringMap<V> {
    fn duplicate(&self) -> (r: Self) {
        let mut r: StringMap<V> = StringMap::new();
        let n: usize = self.len();
        let mut i: usize = 0;
        while i < n
            invariant
                i <= n,
                n == self.order().len(),
                lists(self.order(), self@.dom()),
                forall|k: Chars|
                    #[trigger] r@.dom().contains(k) <==> self.order().take(i as int).contains(k),
                forall|k: Chars| r@.dom().contains(k) ==> #[trigger] r@[k] == self@[k],
            decreases n - i,
        {
            let key = self.key_at(i).clone();
            let value = self.value_at(i).duplicate();
            proof {
                let s = self.order();
                assert(s.take(i + 1) =~= s.take(i as int).push(s[i as int]));
                assert forall|k: Chars| #[trigger]
                    s.take(i + 1).contains(k) <==> (s.take(i as int).contains(k) || k
                        == s[i as int]) by {
                    if s.take(i as int).contains(k) {
                        let m = choose|m: int|
                            0 <= m < s.take(i as int).len() && s.take(i as int)[m] == k;
                        assert(s.take(i + 1)[m] == k);
                    }
                    if k == s[i as int] {
                        assert(s.take(i + 1)[i as int] == k);
                    }
                }
            }
            r.insert(key, value);
            i = i + 1;
        }
        proof {
            assert(self.order().take(n as int) =~= self.order());
            assert(r@ =~= self@);
        }
        r
    }
}

/// A set of strings.
pub struct StringSet {
    members: StringMap<()>,
}

impl View for StringSet {
    type V = Set<Chars>;

    closed spec fn view(&self) -> Set<Chars> {
        self.members@.dom()
    }
}

impl StringSet {
    /// The members in ascending order.
    pub closed spec fn order(&self) -> Seq<Chars> {
        self.members.order()
    }

    /// A set without members.
    pub fn new() -> (r: Self)
        ensures
            r@ == Set::<Chars>::empty(),
    {
        let r = StringSet { members: StringMap::new() };
        assert(r@ =~= Set::<Chars>::empty());
        r
    }

    /// How many members the set has.
    pub fn len(&self) -> (n: usize)
        ensures
            n == self@.len(),
            n == self.order().len(),
            self@.finite(),
            lists(self.order(), self@),
    {
        self.members.len()
    }

    /// Whether a string is a member.
    pub fn contains(&self, key: &str) -> (r: bool)
        ensures
            r == self@.contains(key@),
    {
        self.members.contains(key)
    }

    /// The member at a position of the ascending order.
    pub fn at(&self, i: usize) -> (r: &String)
        requires
            i < self.order().len(),
        ensures
            r@ == self.order()[i as int],
            self@.contains(r@),
    {
        self.members.key_at(i)
    }

    /// Makes a string a member; the result says whether it was new.
    pub fn insert(&mut self, key: String) -> (r: bool)
        ensures
            final(self)@ == old(self)@.insert(key@),
            r == !old(self)@.contains(key@),
    {
        let known = self.members.contains(key.as_str());
        let ghost was = self@;
        let ghost k = key@;
        self.members.insert(key, ());
        assert(self@ =~= was.insert(k));
        !known
    }

    /// Takes a member out; the result says whether it was there.
    pub fn remove(&mut self, key: &str) -> (r: bool)
        ensures
            final(self)@ == old(self)@.remove(key@),
            r == old(self)@.contains(key@),
    {
        let ghost was = self@;
        let r = self.members.remove(key);
        assert(self@ =~= was.remove(key@));
        r
    }

    /// Makes every member of another set a member.
    pub fn absorb(&mut self, other: &StringSet)
        ensures
            final(self)@ == old(self)@.union(other@),
    {
        let n: usize = other.len();
        let ghost was = self@;
        let ghost s = other.order();
        let mut i: usize = 0;
        while i < n
            invariant
                i <= n,
                n == s.len(),
                s == other.order(),
                lists(s, other@),
                forall|k: Chars|
                    #[trigger] self@.contains(k) <==> was.contains(k) || s.take(i as int).contains(
                        k,
                    ),
            decreases n - i,
        {
            let key = other.at(i).clone();
            proof {
                lemma_take_contains(s, i as int);
            }
            self.insert(key);
            i = i + 1;
        }
        assert(s.take(n as int) =~= s);
        assert(self@ =~= was.union(other@));
    }

    /// The members in ascending order, as a list.
    pub fn to_list(&self) -> (r: Vec<String>)
        ensures
            lists(crate::text::views(r@), self@),
    {
        let n: usize = self.len();
        let mut r: Vec<String> = Vec::new();
        let mut i: usize = 0;
        assert(crate::text::views(r@) =~= self.order().take(0));
        while i < n
            invariant
                i <= n,
                n == self.order().len(),
                crate::text::views(r@) == self.order().take(i as int),
            decreases n - i,
        {
            let key = self.at(i).clone();
            proof {
                crate::text::lemma_views_push(r@, key);
                assert(self.order().take(i + 1) =~= self.order().take(i as int).push(
                    self.order()[i as int],
                ));
            }
            r.push(key);
            i = i + 1;
        }
        assert(self.order().take(n as int) =~= self.order());
        r
    }
}

impl Duplicate for StringSet {
    fn duplicate(&self) -> (r: Self) {
        let mut r = StringSet::new();
        r.absorb(self);
        assert(r@ =~= self@);
        r
    }
}

/// The first `i + 1` items hold what the first `i` hold, and item `i`.
pub proof fn lemma_take_contains<A>(s: Seq<A>, i: int)
    requires
        0 <= i < s.len(),
    ensures
        s.take(i + 1) == s.take(i).push(s[i]),
        forall|k: A| #[trigger] s.take(i + 1).contains(k) <==> s.take(i).contains(k) || k == s[i],
{
    assert(s.take(i + 1) =~= s.take(i).push(s[i]));
    assert forall|k: A| #[trigger] s.take(i + 1).contains(k) <==> s.take(i).contains(k) || k == s[i] by {
        if s.take(i).contains(k) {
            let m = choose|m: int| 0 <= m < s.take(i).len() && s.take(i)[m] == k;
            assert(s.take(i + 1)[m] == k);
        }
        if k == s[i] {
            assert(s.take(i + 1)[i] == k);
        }
    }
}

impl<V: View> StringMap<V> {
    /// The keys as a set.
    pub fn keys(&self) -> (r: StringSet)
        ensures
            r@ == self@.dom(),
    {
        let mut r = StringSet::new();
        let n: usize = self.len();
        let ghost s = self.order();
        let mut i: usize = 0;
        while i < n
            invariant
                i <= n,
                n == s.len(),
                s == self.order(),
                lists(s, self@.dom()),
                forall|k: Chars| #[trigger] r@.contains(k) <==> s.take(i as int).contains(k),
            decreases n - i,
        {
            let key = self.key_at(i).clone();
            proof {
                lemma_take_contains(s, i as int);
            }
            r.insert(key);
            i = i + 1;
        }
        assert(s.take(n as int) =~= s);
        assert(r@ =~= self@.dom());
        r
    }
}

} // verus!
