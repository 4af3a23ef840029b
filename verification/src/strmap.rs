//! A string-keyed map kept sorted by key.
//!
//! Keys are ordered lexicographically by character, which is the order of
//! `String`'s `Ord` (UTF-8 byte order agrees with code-point order). Iterating
//! the map by index therefore visits keys in the same order as a `BTreeMap`
//! would, and the sorted layout gives logarithmic lookups.

use vstd::prelude::*;
use crate::text::{chars_of, to_text};

verus! {

/// Strict lexicographic order on character sequences.
pub open spec fn lex_lt(a: Seq<char>, b: Seq<char>) -> bool
    decreases a.len(),
{
    if a.len() == 0 {
        b.len() > 0
    } else if b.len() == 0 {
        false
    } else if a[0] != b[0] {
        a[0] < b[0]
    } else {
        lex_lt(a.drop_first(), b.drop_first())
    }
}

pub proof fn lemma_lex_irreflexive(a: Seq<char>)
    ensures
        !lex_lt(a, a),
    decreases a.len(),
{
    if a.len() > 0 {
        lemma_lex_irreflexive(a.drop_first());
    }
}

pub proof fn lemma_lex_transitive(a: Seq<char>, b: Seq<char>, c: Seq<char>)
    requires
        lex_lt(a, b),
        lex_lt(b, c),
    ensures
        lex_lt(a, c),
    decreases a.len(),
{
    if a.len() > 0 && b.len() > 0 && c.len() > 0 && a[0] == b[0] && b[0] == c[0] {
        lemma_lex_transitive(a.drop_first(), b.drop_first(), c.drop_first());
    }
}

pub proof fn lemma_lex_total(a: Seq<char>, b: Seq<char>)
    requires
        a != b,
    ensures
        lex_lt(a, b) || lex_lt(b, a),
    decreases a.len(),
{
    if a.len() == 0 && b.len() == 0 {
        assert(a =~= b);
    }
    if a.len() > 0 && b.len() > 0 && a[0] == b[0] {
        if a.drop_first() == b.drop_first() {
            assert(a =~= seq![a[0]] + a.drop_first());
            assert(b =~= seq![b[0]] + b.drop_first());
        }
        lemma_lex_total(a.drop_first(), b.drop_first());
    }
}

pub proof fn lemma_lex_asymmetric(a: Seq<char>, b: Seq<char>)
    requires
        lex_lt(a, b),
    ensures
        !lex_lt(b, a),
{
    if lex_lt(b, a) {
        lemma_lex_transitive(a, b, a);
        lemma_lex_irreflexive(a);
    }
}

/// Whether `a` comes strictly before `b`.
pub fn lex_less(a: &[char], b: &[char]) -> (r: bool)
    ensures
        r == lex_lt(a@, b@),
{
    let mut i: usize = 0;
    assert(a@.skip(0) =~= a@);
    assert(b@.skip(0) =~= b@);
    loop
        invariant
            i <= a.len(),
            i <= b.len(),
            lex_lt(a@, b@) == lex_lt(a@.skip(i as int), b@.skip(i as int)),
        decreases a.len() - i,
    {
        if i == a.len() {
            return i < b.len();
        }
        if i == b.len() {
            return false;
        }
        if a[i] != b[i] {
            return a[i] < b[i];
        }
        assert(a@.skip(i as int).drop_first() =~= a@.skip(i + 1));
        assert(b@.skip(i as int).drop_first() =~= b@.skip(i + 1));
        i = i + 1;
    }
}

/// The keys ascend strictly.
pub open spec fn strictly_sorted(ks: Seq<Seq<char>>) -> bool {
    forall|i: int, j: int| 0 <= i < j < ks.len() ==> lex_lt(#[trigger] ks[i], #[trigger] ks[j])
}

/// The keys of `m` in ascending order (for a map with finitely many keys).
pub open spec fn sorted_keys<V>(m: Map<Seq<char>, V>) -> Seq<Seq<char>> {
    choose|ks: Seq<Seq<char>>|
        strictly_sorted(ks) && forall|k: Seq<char>| #[trigger] ks.contains(k) == m.contains_key(k)
}

/// Two ascending listings of the same keys are the same listing.
pub proof fn lemma_sorted_unique(a: Seq<Seq<char>>, b: Seq<Seq<char>>)
    requires
        strictly_sorted(a),
        strictly_sorted(b),
        forall|k: Seq<char>| #[trigger] a.contains(k) == b.contains(k),
    ensures
        a == b,
    decreases a.len(),
{
    if a.len() == 0 {
        if b.len() > 0 {
            assert(b.contains(b[0]));
            assert(a.contains(b[0]) == b.contains(b[0]));
        }
        assert(a =~= b);
    } else {
        assert(a.contains(a[0]));
        assert(a.contains(a[0]) == b.contains(a[0]));
        assert(b.len() > 0);
        assert(b.contains(b[0]));
        assert(a.contains(b[0]) == b.contains(b[0]));
        let i = b.index_of(a[0]);
        let j = a.index_of(b[0]);
        if i > 0 {
            assert(lex_lt(b[0], b[i]));
            if j > 0 {
                assert(lex_lt(a[0], a[j]));
                lemma_lex_asymmetric(a[0], b[0]);
            } else {
                lemma_lex_irreflexive(a[0]);
            }
        }
        assert(a[0] == b[0]);
        let a1 = a.drop_first();
        let b1 = b.drop_first();
        assert forall|k: Seq<char>| #[trigger] a1.contains(k) == b1.contains(k) by {
            if a1.contains(k) {
                let p = a1.index_of(k);
                assert(a.contains(k) && a[p + 1] == k);
                assert(lex_lt(a[0], a[p + 1]));
                lemma_lex_irreflexive(k);
                assert(a.contains(k) == b.contains(k));
                let q = b.index_of(k);
                assert(q != 0);
                assert(b1[q - 1] == k);
            }
            if b1.contains(k) {
                let p = b1.index_of(k);
                assert(b.contains(k) && b[p + 1] == k);
                assert(lex_lt(b[0], b[p + 1]));
                lemma_lex_irreflexive(k);
                assert(a.contains(k) == b.contains(k));
                let q = a.index_of(k);
                assert(q != 0);
                assert(a1[q - 1] == k);
            }
        }
        lemma_sorted_unique(a1, b1);
        assert(a =~= seq![a[0]] + a1);
        assert(b =~= seq![b[0]] + b1);
    }
}

/// An ascending listing of exactly the keys of `m` is `sorted_keys(m)`.
pub proof fn lemma_sorted_keys_of<V>(ks: Seq<Seq<char>>, m: Map<Seq<char>, V>)
    requires
        strictly_sorted(ks),
        forall|k: Seq<char>| #[trigger] ks.contains(k) == m.contains_key(k),
    ensures
        sorted_keys(m) == ks,
{
    let other = sorted_keys(m);
    assert(strictly_sorted(other) && forall|k: Seq<char>| #[trigger] other.contains(k) == m.contains_key(k));
    lemma_sorted_unique(ks, other);
}

/// A map from strings to `V`, held as entries sorted strictly by key.
pub struct StrMap<V> {
    entries: Vec<(Vec<char>, V)>,
}

impl<V> StrMap<V> {
    /// The keys, in ascending order.
    pub closed spec fn key_list(&self) -> Seq<Seq<char>> {
        Seq::new(self.entries@.len(), |i: int| self.entries@[i].0@)
    }

    /// The values, in the order of `key_list`.
    pub closed spec fn val_list(&self) -> Seq<V> {
        Seq::new(self.entries@.len(), |i: int| self.entries@[i].1)
    }

    #[verifier::type_invariant]
    closed spec fn sorted(&self) -> bool {
        forall|i: int, j: int|
            0 <= i < j < self.entries@.len() ==> lex_lt(
                #[trigger] self.entries@[i].0@,
                #[trigger] self.entries@[j].0@,
            )
    }

    /// What the listing `key_list`/`val_list` says of the map: keys ascend
    /// strictly, each listed key maps to its listed value, and every key of the
    /// map is listed.
    pub open spec fn listing(&self) -> bool {
        &&& self.key_list().len() == self.val_list().len()
        &&& forall|i: int, j: int|
            0 <= i < j < self.key_list().len() ==> lex_lt(
                #[trigger] self.key_list()[i],
                #[trigger] self.key_list()[j],
            )
        &&& forall|i: int|
            0 <= i < self.key_list().len() ==> {
                &&& self@.contains_key(#[trigger] self.key_list()[i])
                &&& self@[self.key_list()[i]] == self.val_list()[i]
            }
        &&& forall|k: Seq<char>| #[trigger]
            self@.contains_key(k) ==> self.key_list().contains(k)
    }

    /// The listing of a map is its keys in ascending order.
    pub proof fn lemma_key_list_sorted(&self)
        requires
            self.listing(),
        ensures
            self.key_list() == sorted_keys(self@),
    {
        let ks = self.key_list();
        assert forall|k: Seq<char>| #[trigger] ks.contains(k) == self@.contains_key(k) by {
            if ks.contains(k) {
                let i = ks.index_of(k);
                assert(self@.contains_key(ks[i]));
            }
        }
        assert(strictly_sorted(ks));
        let other = sorted_keys(self@);
        lemma_sorted_unique(ks, other);
    }

    /// The map has finitely many keys, as many as its listing.
    pub proof fn lemma_dom_len(&self)
        requires
            self.listing(),
        ensures
            self@.dom().finite(),
            self@.dom().len() == self.key_list().len(),
    {
        let ks = self.key_list();
        assert(ks.no_duplicates()) by {
            assert forall|i: int, j: int| 0 <= i < ks.len() && 0 <= j < ks.len() && i != j implies ks[i] != ks[j] by {
                if i < j {
                    assert(lex_lt(ks[i], ks[j]));
                    lemma_lex_irreflexive(ks[i]);
                } else {
                    assert(lex_lt(ks[j], ks[i]));
                    lemma_lex_irreflexive(ks[j]);
                }
            }
        }
        assert(self@.dom() =~= ks.to_set()) by {
            assert forall|k: Seq<char>| #[trigger] self@.dom().contains(k) == ks.to_set().contains(k) by {
                if ks.contains(k) {
                    assert(self@.contains_key(ks[ks.index_of(k)]));
                }
            }
        }
        ks.unique_seq_to_set();
    }

    proof fn lemma_listing(&self)
        requires
            self.sorted(),
        ensures
            self.listing(),
    {
        let keys = self.key_list();
        assert forall|i: int| 0 <= i < keys.len() implies {
            &&& self@.contains_key(#[trigger] keys[i])
            &&& self@[keys[i]] == self.val_list()[i]
        } by {
            assert(keys.contains(keys[i]));
            let j = keys.index_of(keys[i]);
            assert(0 <= j < keys.len() && keys[j] == keys[i]);
            if j < i {
                assert(lex_lt(self.entries@[j].0@, self.entries@[i].0@));
                lemma_lex_irreflexive(keys[i]);
            }
            if i < j {
                assert(lex_lt(self.entries@[i].0@, self.entries@[j].0@));
                lemma_lex_irreflexive(keys[i]);
            }
        }
        assert forall|i: int, j: int| 0 <= i < j < keys.len() implies lex_lt(
            #[trigger] keys[i],
            #[trigger] keys[j],
        ) by {
            assert(lex_lt(self.entries@[i].0@, self.entries@[j].0@));
        }
    }

    /// The empty map.
    pub fn new() -> (m: Self)
        ensures
            m@ == Map::<Seq<char>, V>::empty(),
            m.key_list() == Seq::<Seq<char>>::empty(),
    {
        let m = StrMap { entries: Vec::new() };
        assert(m@ =~= Map::<Seq<char>, V>::empty());
        assert(m.key_list() =~= Seq::<Seq<char>>::empty());
        m
    }

    /// The number of entries; also establishes `listing`.
    pub fn len(&self) -> (n: usize)
        ensures
            n == self.key_list().len(),
            self.listing(),
    {
        proof {
            use_type_invariant(self);
            self.lemma_listing();
        }
        self.entries.len()
    }

    /// The `i`-th key in ascending order.
    pub fn key_chars_at(&self, i: usize) -> (k: &Vec<char>)
        requires
            i < self.key_list().len(),
        ensures
            k@ == self.key_list()[i as int],
    {
        &self.entries[i].0
    }

    /// The `i`-th key in ascending order, as a `String`.
    pub fn key_at(&self, i: usize) -> (k: String)
        requires
            i < self.key_list().len(),
        ensures
            k@ == self.key_list()[i as int],
    {
        to_text(self.entries[i].0.as_slice())
    }

    /// The value of the `i`-th key.
    pub fn value_at(&self, i: usize) -> (v: &V)
        requires
            i < self.key_list().len(),
        ensures
            *v == self.val_list()[i as int],
            self@.contains_key(self.key_list()[i as int]),
            *v == self@[self.key_list()[i as int]],
    {
        proof {
            use_type_invariant(self);
            self.lemma_listing();
        }
        &self.entries[i].1
    }

    /// Binary search for `key`: `Ok(i)` at its entry, or `Err(i)` where it
    /// would be inserted.
    fn search(&self, key: &[char]) -> (r: Result<usize, usize>)
        ensures
            match r {
                Ok(i) => i < self.key_list().len() && self.key_list()[i as int] == key@,
                Err(i) => {
                    &&& i <= self.key_list().len()
                    &&& forall|j: int|
                        0 <= j < i ==> lex_lt(#[trigger] self.key_list()[j], key@)
                    &&& forall|j: int|
                        i <= j < self.key_list().len() ==> lex_lt(
                            key@,
                            #[trigger] self.key_list()[j],
                        )
                },
            },
    {
        proof {
            use_type_invariant(self);
            self.lemma_listing();
        }
        let ghost keys = self.key_list();
        let mut lo: usize = 0;
        let mut hi: usize = self.entries.len();
        while lo < hi
            invariant
                lo <= hi <= keys.len(),
                keys == self.key_list(),
                keys.len() == self.entries@.len(),
                self.listing(),
                forall|j: int| 0 <= j < lo ==> lex_lt(#[trigger] keys[j], key@),
                forall|j: int| hi <= j < keys.len() ==> lex_lt(key@, #[trigger] keys[j]),
            decreases hi - lo,
        {
            let mid = lo + (hi - lo) / 2;
            let k = &self.entries[mid].0;
            assert(k@ == keys[mid as int]);
            if lex_less(k.as_slice(), key) {
                assert forall|j: int| 0 <= j < mid + 1 implies lex_lt(#[trigger] keys[j], key@) by {
                    if j < mid {
                        lemma_lex_transitive(keys[j], keys[mid as int], key@);
                    }
                }
                lo = mid + 1;
            } else if lex_less(key, k.as_slice()) {
                assert forall|j: int| mid <= j < keys.len() implies lex_lt(key@, #[trigger] keys[j]) by {
                    if mid < j {
                        lemma_lex_transitive(key@, keys[mid as int], keys[j]);
                    }
                }
                hi = mid;
            } else {
                proof {
                    if k@ != key@ {
                        lemma_lex_total(k@, key@);
                    }
                }
                return Ok(mid);
            }
        }
        Err(lo)
    }

    /// The value stored under `key`, if any.
    pub fn get_chars(&self, key: &[char]) -> (r: Option<&V>)
        ensures
            match r {
                Some(v) => self@.contains_key(key@) && *v == self@[key@],
                None => !self@.contains_key(key@),
            },
    {
        proof {
            use_type_invariant(self);
            self.lemma_listing();
        }
        match self.search(key) {
            Ok(i) => Some(&self.entries[i].1),
            Err(i) => {
                proof {
                    if self@.contains_key(key@) {
                        let j = self.key_list().index_of(key@);
                        lemma_lex_irreflexive(key@);
                        assert(lex_lt(self.key_list()[j], key@) || lex_lt(key@, self.key_list()[j]));
                    }
                }
                None
            },
        }
    }

    /// The value stored under `key`, if any.
    pub fn get(&self, key: &str) -> (r: Option<&V>)
        ensures
            match r {
                Some(v) => self@.contains_key(key@) && *v == self@[key@],
                None => !self@.contains_key(key@),
            },
    {
        let k = chars_of(key);
        self.get_chars(k.as_slice())
    }

    pub fn contains_key_chars(&self, key: &[char]) -> (r: bool)
        ensures
            r == self@.contains_key(key@),
    {
        match self.get_chars(key) {
            Some(_) => true,
            None => false,
        }
    }

    pub fn contains_key(&self, key: &str) -> (r: bool)
        ensures
            r == self@.contains_key(key@),
    {
        let k = chars_of(key);
        self.contains_key_chars(k.as_slice())
    }

    /// Stores `v` under `key`, replacing any previous value.
    pub fn insert_chars(&mut self, key: Vec<char>, v: V)
        ensures
            final(self)@ == old(self)@.insert(key@, v),
    {
        proof {
            use_type_invariant(&*self);
            self.lemma_listing();
        }
        let ghost old_keys = self.key_list();
        let ghost old_vals = self.val_list();
        let ghost old_map = self@;
        let ghost k = key@;
        let r = self.search(key.as_slice());
        let mut entries: Vec<(Vec<char>, V)> = Vec::new();
        std::mem::swap(&mut entries, &mut self.entries);
        let ghost e0 = entries@;
        assert(old_keys == Seq::new(e0.len(), |i: int| e0[i].0@));
        match r {
            Ok(i) => {
                entries.set(i, (key, v));
                let ghost e1 = entries@;
                let ghost m = StrMap { entries };
                assert forall|a: int, b: int| 0 <= a < b < e1.len() implies lex_lt(
                    #[trigger] e1[a].0@,
                    #[trigger] e1[b].0@,
                ) by {
                    assert(lex_lt(old_keys[a], old_keys[b]));
                }
                self.entries = entries;
                proof {
                    self.lemma_listing();
                    let nk = self.key_list();
                    assert(nk =~= old_keys);
                    assert forall|q: Seq<char>| #[trigger] self@.contains_key(q) == old_map.insert(k, v).contains_key(q) by {
                        if old_map.contains_key(q) {
                            let j = old_keys.index_of(q);
                            assert(self@.contains_key(nk[j]));
                        }
                        if self@.contains_key(q) {
                            let j = nk.index_of(q);
                            if j != i {
                                assert(old_map.contains_key(old_keys[j]));
                            }
                        }
                    }
                    assert forall|q: Seq<char>| #[trigger] self@.contains_key(q) implies self@[q] == old_map.insert(k, v)[q] by {
                        let j = nk.index_of(q);
                        assert(self@[nk[j]] == self.val_list()[j]);
                        if j != i {
                            assert(old_map[old_keys[j]] == old_vals[j]);
                        }
                    }
                    assert(self@ =~= old_map.insert(k, v));
                }
            },
            Err(i) => {
                entries.insert(i, (key, v));
                let ghost e1 = entries@;
                assert forall|a: int, b: int| 0 <= a < b < e1.len() implies lex_lt(
                    #[trigger] e1[a].0@,
                    #[trigger] e1[b].0@,
                ) by {
                    if b < i {
                        assert(lex_lt(old_keys[a], old_keys[b]));
                    } else if b == i {
                        assert(lex_lt(old_keys[a], k));
                    } else if a < i {
                        assert(lex_lt(old_keys[a], old_keys[b - 1]));
                    } else if a == i {
                        assert(lex_lt(k, old_keys[b - 1]));
                    } else {
                        assert(lex_lt(old_keys[a - 1], old_keys[b - 1]));
                    }
                }
                self.entries = entries;
                proof {
                    self.lemma_listing();
                    let nk = self.key_list();
                    assert(nk =~= old_keys.insert(i as int, k));
                    assert forall|q: Seq<char>| #[trigger] self@.contains_key(q) == old_map.insert(k, v).contains_key(q) by {
                        if old_map.contains_key(q) {
                            let j = old_keys.index_of(q);
                            if j < i {
                                assert(self@.contains_key(nk[j]));
                            } else {
                                assert(self@.contains_key(nk[j + 1]));
                            }
                        }
                        if q == k {
                            assert(self@.contains_key(nk[i as int]));
                        }
                        if self@.contains_key(q) {
                            let j = nk.index_of(q);
                            if j < i {
                                assert(old_map.contains_key(old_keys[j]));
                            } else if j > i {
                                assert(old_map.contains_key(old_keys[j - 1]));
                            }
                        }
                    }
                    assert forall|q: Seq<char>| #[trigger] self@.contains_key(q) implies self@[q] == old_map.insert(k, v)[q] by {
                        let j = nk.index_of(q);
                        assert(self@[nk[j]] == self.val_list()[j]);
                        assert(nk[j] == q);
                        if j < i {
                            assert(self.val_list()[j] == old_vals[j]);
                            assert(old_map[old_keys[j]] == old_vals[j]);
                        } else if j > i {
                            assert(self.val_list()[j] == old_vals[j - 1]);
                            assert(old_map[old_keys[j - 1]] == old_vals[j - 1]);
                        } else {
                            assert(self.val_list()[j] == v);
                        }
                    }
                    assert(self@ =~= old_map.insert(k, v));
                }
            },
        }
    }

    /// Stores `v` under `key`, replacing any previous value.
    pub fn insert(&mut self, key: &str, v: V)
        ensures
            final(self)@ == old(self)@.insert(key@, v),
    {
        let k = chars_of(key);
        self.insert_chars(k, v);
    }

    /// Removes `key`, returning its value if it was present.
    pub fn remove_chars(&mut self, key: &[char]) -> (r: Option<V>)
        ensures
            final(self)@ == old(self)@.remove(key@),
            match r {
                Some(v) => old(self)@.contains_key(key@) && v == old(self)@[key@],
                None => !old(self)@.contains_key(key@),
            },
    {
        proof {
            use_type_invariant(&*self);
            self.lemma_listing();
        }
        let ghost old_keys = self.key_list();
        let ghost old_vals = self.val_list();
        let ghost old_map = self@;
        let ghost k = key@;
        match self.search(key) {
            Err(i) => {
                proof {
                    if old_map.contains_key(k) {
                        let j = old_keys.index_of(k);
                        lemma_lex_irreflexive(k);
                        assert(lex_lt(old_keys[j], k) || lex_lt(k, old_keys[j]));
                    }
                    assert(old_map.remove(k) =~= old_map);
                }
                None
            },
            Ok(i) => {
                let mut entries: Vec<(Vec<char>, V)> = Vec::new();
                std::mem::swap(&mut entries, &mut self.entries);
                let ghost e0 = entries@;
                assert(old_keys == Seq::new(e0.len(), |i: int| e0[i].0@));
                let (_, v) = entries.remove(i);
                let ghost e1 = entries@;
                assert forall|a: int, b: int| 0 <= a < b < e1.len() implies lex_lt(
                    #[trigger] e1[a].0@,
                    #[trigger] e1[b].0@,
                ) by {
                    if b < i {
                        assert(lex_lt(old_keys[a], old_keys[b]));
                    } else if a < i {
                        assert(lex_lt(old_keys[a], old_keys[b + 1]));
                    } else {
                        assert(lex_lt(old_keys[a + 1], old_keys[b + 1]));
                    }
                }
                self.entries = entries;
                proof {
                    self.lemma_listing();
                    let nk = self.key_list();
                    assert(nk =~= old_keys.remove(i as int));
                    assert(old_map.contains_key(old_keys[i as int]));
                    assert forall|q: Seq<char>| #[trigger] self@.contains_key(q) == old_map.remove(k).contains_key(q) by {
                        if old_map.contains_key(q) && q != k {
                            let j = old_keys.index_of(q);
                            if j < i {
                                assert(self@.contains_key(nk[j]));
                            } else {
                                assert(j != i);
                                assert(self@.contains_key(nk[j - 1]));
                            }
                        }
                        if self@.contains_key(q) {
                            let j = nk.index_of(q);
                            if j < i {
                                assert(old_map.contains_key(old_keys[j]));
                                assert(lex_lt(old_keys[j], old_keys[i as int]));
                                lemma_lex_irreflexive(k);
                            } else {
                                assert(old_map.contains_key(old_keys[j + 1]));
                                assert(lex_lt(old_keys[i as int], old_keys[j + 1]));
                                lemma_lex_irreflexive(k);
                            }
                        }
                    }
                    assert forall|q: Seq<char>| #[trigger] self@.contains_key(q) implies self@[q] == old_map.remove(k)[q] by {
                        let j = nk.index_of(q);
                        assert(self@[nk[j]] == self.val_list()[j]);
                        if j < i {
                            assert(old_map[old_keys[j]] == old_vals[j]);
                        } else {
                            assert(old_map[old_keys[j + 1]] == old_vals[j + 1]);
                        }
                    }
                    assert(self@ =~= old_map.remove(k));
                }
                Some(v)
            },
        }
    }
}

impl<V> StrMap<V> {
    /// The keys of the map are the listed keys, so there are finitely many.
    pub proof fn lemma_keys_listed(&self)
        ensures
            forall|k: Seq<char>| #[trigger] self@.contains_key(k) == self.key_list().contains(k),
            self@.dom().finite(),
    {
        assert(self@.dom() =~= self.key_list().to_set());
        vstd::seq_lib::seq_to_set_is_finite(self.key_list());
    }
}

impl<V> View for StrMap<V> {
    type V = Map<Seq<char>, V>;

    closed spec fn view(&self) -> Map<Seq<char>, V> {
        Map::new(
            |k: Seq<char>| self.key_list().contains(k),
            |k: Seq<char>| self.val_list()[self.key_list().index_of(k)],
        )
    }
}

} // verus!
