//! An ordered map from byte strings to values, kept as a vector of entries in
//! strictly ascending lexicographic key order (the order of `Vec<u8>` keys in a
//! `BTreeMap`).
use vstd::prelude::*;

verus! {

/// `a` precedes `b` in lexicographic byte order, comparing from position `i` on.
pub open spec fn lex_lt_from(a: Seq<u8>, b: Seq<u8>, i: nat) -> bool
    decreases a.len() - i,
{
    if i >= a.len() {
        i < b.len()
    } else if i >= b.len() {
        false
    } else if a[i as int] < b[i as int] {
        true
    } else if a[i as int] > b[i as int] {
        false
    } else {
        lex_lt_from(a, b, i + 1)
    }
}

/// Lexicographic order on byte strings: the order of `[u8]` in std.
pub open spec fn lex_lt(a: Seq<u8>, b: Seq<u8>) -> bool {
    lex_lt_from(a, b, 0)
}

/// No byte string precedes itself.
pub proof fn lemma_lex_irreflexive(a: Seq<u8>, i: nat)
    ensures
        !lex_lt_from(a, a, i),
    decreases a.len() - i,
{
    if i < a.len() {
        lemma_lex_irreflexive(a, i + 1);
    }
}

/// Two byte strings that agree from position `i` on are ordered one way or the other.
pub proof fn lemma_lex_trichotomy(a: Seq<u8>, b: Seq<u8>, i: nat)
    requires
        i <= a.len(),
        i <= b.len(),
    ensures
        lex_lt_from(a, b, i) || lex_lt_from(b, a, i) || (a.len() == b.len() && forall|j: int|
            i <= j < a.len() ==> a[j] == b[j]),
        !(lex_lt_from(a, b, i) && lex_lt_from(b, a, i)),
    decreases a.len() - i,
{
    if i < a.len() && i < b.len() && a[i as int] == b[i as int] {
        lemma_lex_trichotomy(a, b, i + 1);
        if !lex_lt_from(a, b, i) && !lex_lt_from(b, a, i) {
            assert forall|j: int| i <= j < a.len() implies a[j] == b[j] by {
                if j > i {
                }
            }
        }
    }
}

/// Lexicographic order is transitive.
pub proof fn lemma_lex_transitive(a: Seq<u8>, b: Seq<u8>, c: Seq<u8>, i: nat)
    requires
        lex_lt_from(a, b, i),
        lex_lt_from(b, c, i),
    ensures
        lex_lt_from(a, c, i),
    decreases a.len() - i,
{
    if i < a.len() && i < b.len() && i < c.len() && a[i as int] == b[i as int] && b[i as int]
        == c[i as int] {
        lemma_lex_transitive(a, b, c, i + 1);
    }
}

/// Two distinct byte strings are ordered one way or the other, and never both ways.
pub proof fn lemma_lex_total(a: Seq<u8>, b: Seq<u8>)
    ensures
        a != b ==> lex_lt(a, b) || lex_lt(b, a),
        !(lex_lt(a, b) && lex_lt(b, a)),
        !lex_lt(a, a),
{
    lemma_lex_trichotomy(a, b, 0);
    lemma_lex_irreflexive(a, 0);
    if !lex_lt(a, b) && !lex_lt(b, a) {
        assert(a =~= b);
    }
}

/// The outcome of comparing two byte strings.
#[derive(PartialEq, Eq, Structural, Clone, Copy, Debug)]
pub enum KeyOrder {
    Less,
    Equal,
    Greater,
}

/// Compares two byte strings in lexicographic order.
pub fn compare_bytes(a: &[u8], b: &[u8]) -> (r: KeyOrder)
    ensures
        r == KeyOrder::Less <==> lex_lt(a@, b@),
        r == KeyOrder::Equal <==> a@ == b@,
        r == KeyOrder::Greater <==> lex_lt(b@, a@),
{
    proof {
        lemma_lex_total(a@, b@);
    }
    let mut i: usize = 0;
    while i < a.len() && i < b.len()
        invariant
            i <= a.len(),
            i <= b.len(),
            forall|j: int| 0 <= j < i ==> a@[j] == b@[j],
            lex_lt(a@, b@) == lex_lt_from(a@, b@, i as nat),
            lex_lt(b@, a@) == lex_lt_from(b@, a@, i as nat),
        decreases a.len() - i,
    {
        if a[i] < b[i] {
            return KeyOrder::Less;
        }
        if a[i] > b[i] {
            return KeyOrder::Greater;
        }
        i = i + 1;
    }
    if i < b.len() {
        KeyOrder::Less
    } else if i < a.len() {
        KeyOrder::Greater
    } else {
        assert(a@ =~= b@);
        KeyOrder::Equal
    }
}

/// The entries of a vector, with keys as byte sequences.
pub open spec fn view_entries<V>(e: Seq<(Vec<u8>, V)>) -> Seq<(Seq<u8>, V)> {
    e.map_values(|x: (Vec<u8>, V)| (x.0@, x.1))
}

/// The keys of `s` ascend strictly in lexicographic order.
pub open spec fn keys_ascending<V>(s: Seq<(Seq<u8>, V)>) -> bool {
    forall|i: int, j: int| 0 <= i < j < s.len() ==> lex_lt(#[trigger] s[i].0, #[trigger] s[j].0)
}

/// A position of `s` whose key is `k`, where there is one.
pub open spec fn key_index<V>(s: Seq<(Seq<u8>, V)>, k: Seq<u8>) -> int {
    choose|i: int| 0 <= i < s.len() && s[i].0 == k
}

/// The map that a sequence of entries with distinct keys describes.
pub open spec fn entries_to_map<V>(s: Seq<(Seq<u8>, V)>) -> Map<Seq<u8>, V> {
    Map::new(
        |k: Seq<u8>| exists|i: int| 0 <= i < s.len() && s[i].0 == k,
        |k: Seq<u8>| s[key_index(s, k)].1,
    )
}

/// In a sequence of ascending keys, each entry is what the map holds at its key.
pub proof fn lemma_entries_to_map_at<V>(s: Seq<(Seq<u8>, V)>, i: int)
    requires
        keys_ascending(s),
        0 <= i < s.len(),
    ensures
        entries_to_map(s).contains_key(s[i].0),
        entries_to_map(s)[s[i].0] == s[i].1,
{
    let k = s[i].0;
    assert(0 <= i < s.len() && s[i].0 == k);
    let j = key_index(s, k);
    assert(0 <= j < s.len() && s[j].0 == k);
    if j != i {
        lemma_lex_total(k, k);
        if j < i {
            assert(lex_lt(s[j].0, s[i].0));
        } else {
            assert(lex_lt(s[i].0, s[j].0));
        }
    }
    assert(entries_to_map(s)[k] == s[j].1);
}

/// A map of byte-string keys, iterated in ascending key order.
pub struct ByteMap<V> {
    entries: Vec<(Vec<u8>, V)>,
}

impl<V> ByteMap<V> {
    /// The entries, with keys as byte sequences, in the order they are kept.
    pub closed spec fn pairs(&self) -> Seq<(Seq<u8>, V)> {
        view_entries(self.entries@)
    }

    /// Moves the entries out, leaving the map empty.
    fn take_vec(&mut self) -> (r: Vec<(Vec<u8>, V)>)
        ensures
            final(self)@ == Map::<Seq<u8>, V>::empty(),
            view_entries(r@) == old(self).pairs(),
            keys_ascending(view_entries(r@)),
    {
        proof {
            use_type_invariant(&*self);
        }
        let mut taken = ByteMap { entries: Vec::new() };
        assert(taken.pairs() =~= Seq::<(Seq<u8>, V)>::empty());
        std::mem::swap(&mut taken, self);
        assert(self@ =~= Map::<Seq<u8>, V>::empty());
        let ByteMap { entries } = taken;
        entries
    }

    /// The keys ascend strictly.
    #[verifier::type_invariant]
    closed spec fn wf(&self) -> bool {
        keys_ascending(self.pairs())
    }

    /// The map from keys to values.
    pub open spec fn view(&self) -> Map<Seq<u8>, V> {
        entries_to_map(self.pairs())
    }

    /// What the map holds, as seen through its entries.
    proof fn lemma_wf_pairs(&self)
        requires
            self.wf(),
        ensures
            keys_ascending(self.pairs()),
            self.pairs().len() == self@.dom().len(),
            self@.dom().finite(),
            forall|i: int| #![trigger self.pairs()[i]]
                0 <= i < self.pairs().len() ==> self@.contains_key(self.pairs()[i].0)
                    && self@[self.pairs()[i].0] == self.pairs()[i].1,
            forall|k: Seq<u8>| #[trigger]
                self@.contains_key(k) ==> exists|i: int|
                    0 <= i < self.pairs().len() && self.pairs()[i].0 == k,
    {
        let s = self.pairs();
        assert forall|i: int| #![trigger s[i]] 0 <= i < s.len() implies self@.contains_key(s[i].0)
            && self@[s[i].0] == s[i].1 by {
            lemma_entries_to_map_at(s, i);
        }
        lemma_dom_len(s);
    }

    /// An empty map.
    pub fn new() -> (r: Self)
        ensures
            r@ == Map::<Seq<u8>, V>::empty(),
            r.pairs() == Seq::<(Seq<u8>, V)>::empty(),
    {
        let r = ByteMap { entries: Vec::new() };
        assert(r.pairs() =~= Seq::<(Seq<u8>, V)>::empty());
        assert(r@ =~= Map::<Seq<u8>, V>::empty());
        r
    }

    /// The number of entries.
    pub fn len(&self) -> (n: usize)
        ensures
            n == self@.len(),
            n == self.pairs().len(),
            self@.dom().finite(),
    {
        proof {
            use_type_invariant(self);
            self.lemma_wf_pairs();
        }
        self.entries.len()
    }

    /// Where `key` is or would go: every entry before the position has a smaller key,
    /// and the entry at it (if any) has `key` itself when `found`, a larger one otherwise.
    fn find(&self, key: &[u8]) -> (r: (usize, bool))
        ensures
            r.0 <= self.pairs().len(),
            forall|j: int| 0 <= j < r.0 ==> lex_lt(#[trigger] self.pairs()[j].0, key@),
            r.1 ==> r.0 < self.pairs().len() && self.pairs()[r.0 as int].0 == key@,
            !r.1 ==> forall|j: int|
                r.0 <= j < self.pairs().len() ==> lex_lt(key@, #[trigger] self.pairs()[j].0),
    {
        proof {
            use_type_invariant(self);
        }
        let mut i: usize = 0;
        while i < self.entries.len()
            invariant
                keys_ascending(self.pairs()),
                i <= self.entries.len(),
                self.pairs().len() == self.entries.len(),
                forall|j: int| 0 <= j < i ==> lex_lt(#[trigger] self.pairs()[j].0, key@),
            decreases self.entries.len() - i,
        {
            let c = compare_bytes(self.entries[i].0.as_slice(), key);
            assert(self.pairs()[i as int].0 == self.entries@[i as int].0@);
            match c {
                KeyOrder::Less => {
                    i = i + 1;
                },
                KeyOrder::Equal => {
                    return (i, true);
                },
                KeyOrder::Greater => {
                    assert forall|j: int| i <= j < self.pairs().len() implies lex_lt(
                        key@,
                        #[trigger] self.pairs()[j].0,
                    ) by {
                        if j > i {
                            lemma_lex_transitive(key@, self.pairs()[i as int].0, self.pairs()[j].0, 0);
                        }
                    }
                    return (i, false);
                },
            }
        }
        (i, false)
    }

    /// The value at `key`, if there is one.
    pub fn get(&self, key: &[u8]) -> (r: Option<&V>)
        ensures
            match r {
                Some(v) => self@.contains_key(key@) && *v == self@[key@],
                None => !self@.contains_key(key@),
            },
    {
        proof {
            use_type_invariant(self);
            self.lemma_wf_pairs();
        }
        let (p, found) = self.find(key);
        if found {
            Some(&self.entries[p].1)
        } else {
            proof {
                self.lemma_absent(key@, p as int);
            }
            None
        }
    }

    proof fn lemma_absent(&self, k: Seq<u8>, p: int)
        requires
            self.wf(),
            0 <= p <= self.pairs().len(),
            forall|j: int| 0 <= j < p ==> lex_lt(#[trigger] self.pairs()[j].0, k),
            forall|j: int| p <= j < self.pairs().len() ==> lex_lt(k, #[trigger] self.pairs()[j].0),
        ensures
            !self@.contains_key(k),
            forall|j: int| 0 <= j < self.pairs().len() ==> #[trigger] self.pairs()[j].0 != k,
    {
        lemma_lex_total(k, k);
        assert forall|j: int| 0 <= j < self.pairs().len() implies #[trigger] self.pairs()[j].0 != k by {
            if j < p {
                assert(lex_lt(self.pairs()[j].0, k));
            } else {
                assert(lex_lt(k, self.pairs()[j].0));
            }
        }
    }

    /// Sets the value at `key`, replacing the one there was.
    pub fn insert(&mut self, key: Vec<u8>, value: V)
        ensures
            final(self)@ == old(self)@.insert(key@, value),
    {
        proof {
            use_type_invariant(&*self);
            self.lemma_wf_pairs();
        }
        let ghost k = key@;
        let ghost s = self.pairs();
        let ghost m = self@.insert(k, value);
        let (p, found) = self.find(key.as_slice());
        if found {
            let mut entries = self.take_vec();
            entries.set(p, (key, value));
            let ghost t = view_entries(entries@);
            assert(t =~= s.update(p as int, (k, value)));
            assert(keys_ascending(t)) by {
                assert forall|i: int, j: int| 0 <= i < j < t.len() implies lex_lt(
                    #[trigger] t[i].0,
                    #[trigger] t[j].0,
                ) by {
                    assert(lex_lt(s[i].0, s[j].0));
                }
            }
            proof {
                lemma_lex_total(k, k);
                assert forall|k2: Seq<u8>| #[trigger] m.contains_key(k2) implies exists|i: int|
                    0 <= i < t.len() && t[i].0 == k2 by {
                    if k2 == k {
                        assert(t[p as int].0 == k2);
                    } else {
                        let i = choose|i: int| 0 <= i < s.len() && s[i].0 == k2;
                        assert(t[i].0 == k2);
                    }
                }
                assert forall|i: int| #![trigger t[i]] 0 <= i < t.len() implies m.contains_key(t[i].0)
                    && m[t[i].0] == t[i].1 by {
                    if i != p {
                        assert(t[i] == s[i]);
                        if i < p {
                            assert(lex_lt(s[i].0, s[p as int].0));
                        } else {
                            assert(lex_lt(s[p as int].0, s[i].0));
                        }
                    }
                }
                lemma_entries_to_map_is(t, m);
            }
            *self = ByteMap { entries };
        } else {
            proof {
                self.lemma_absent(k, p as int);
            }
            let mut entries = self.take_vec();
            entries.insert(p, (key, value));
            let ghost t = view_entries(entries@);
            assert(t =~= s.insert(p as int, (k, value)));
            assert(keys_ascending(t)) by {
                assert forall|i: int, j: int| 0 <= i < j < t.len() implies lex_lt(
                    #[trigger] t[i].0,
                    #[trigger] t[j].0,
                ) by {
                    if j < p {
                        assert(lex_lt(s[i].0, s[j].0));
                    } else if j == p {
                        assert(lex_lt(s[i].0, k));
                    } else if i == p {
                        assert(lex_lt(k, s[j - 1].0));
                    } else if i < p {
                        assert(lex_lt(s[i].0, s[j - 1].0));
                    } else {
                        assert(lex_lt(s[i - 1].0, s[j - 1].0));
                    }
                }
            }
            proof {
                assert forall|k2: Seq<u8>| #[trigger] m.contains_key(k2) implies exists|i: int|
                    0 <= i < t.len() && t[i].0 == k2 by {
                    if k2 == k {
                        assert(t[p as int].0 == k2);
                    } else {
                        let i = choose|i: int| 0 <= i < s.len() && s[i].0 == k2;
                        if i < p {
                            assert(t[i].0 == k2);
                        } else {
                            assert(t[i + 1].0 == k2);
                        }
                    }
                }
                assert forall|i: int| #![trigger t[i]] 0 <= i < t.len() implies m.contains_key(t[i].0)
                    && m[t[i].0] == t[i].1 by {
                    if i < p {
                        assert(t[i] == s[i]);
                    } else if i > p {
                        assert(t[i] == s[i - 1]);
                    }
                }
                lemma_entries_to_map_is(t, m);
            }
            *self = ByteMap { entries };
        }
    }

    /// Removes `key` and hands back the value it had, if any.
    pub fn remove(&mut self, key: &[u8]) -> (r: Option<V>)
        ensures
            final(self)@ == old(self)@.remove(key@),
            match r {
                Some(v) => old(self)@.contains_key(key@) && v == old(self)@[key@],
                None => !old(self)@.contains_key(key@),
            },
    {
        proof {
            use_type_invariant(&*self);
            self.lemma_wf_pairs();
        }
        let ghost k = key@;
        let ghost s = self.pairs();
        let ghost m = self@.remove(k);
        let (p, found) = self.find(key);
        if found {
            let mut entries = self.take_vec();
            let e = entries.remove(p);
            let ghost t = view_entries(entries@);
            assert(t =~= s.remove(p as int));
            assert(keys_ascending(t)) by {
                assert forall|i: int, j: int| 0 <= i < j < t.len() implies lex_lt(
                    #[trigger] t[i].0,
                    #[trigger] t[j].0,
                ) by {
                    if j < p {
                        assert(lex_lt(s[i].0, s[j].0));
                    } else if i < p {
                        assert(lex_lt(s[i].0, s[j + 1].0));
                    } else {
                        assert(lex_lt(s[i + 1].0, s[j + 1].0));
                    }
                }
            }
            proof {
                lemma_lex_total(k, k);
                assert forall|k2: Seq<u8>| #[trigger] m.contains_key(k2) implies exists|i: int|
                    0 <= i < t.len() && t[i].0 == k2 by {
                    let i = choose|i: int| 0 <= i < s.len() && s[i].0 == k2;
                    if i < p {
                        assert(t[i].0 == k2);
                    } else {
                        assert(i != p);
                        assert(t[i - 1].0 == k2);
                    }
                }
                assert forall|i: int| #![trigger t[i]] 0 <= i < t.len() implies m.contains_key(t[i].0)
                    && m[t[i].0] == t[i].1 by {
                    if i < p {
                        assert(t[i] == s[i]);
                        assert(lex_lt(s[i].0, s[p as int].0));
                    } else {
                        assert(t[i] == s[i + 1]);
                        assert(lex_lt(s[p as int].0, s[i + 1].0));
                    }
                }
                lemma_entries_to_map_is(t, m);
            }
            *self = ByteMap { entries };
            Some(e.1)
        } else {
            proof {
                self.lemma_absent(k, p as int);
                assert(m =~= self@);
            }
            None
        }
    }

    /// Empties the map and hands back its entries in ascending key order.
    pub fn take_entries(&mut self) -> (r: Vec<(Vec<u8>, V)>)
        ensures
            final(self)@ == Map::<Seq<u8>, V>::empty(),
            keys_ascending(view_entries(r@)),
            entries_to_map(view_entries(r@)) == old(self)@,
    {
        self.take_vec()
    }
}

/// A sequence of ascending entries describes `m` when each of its entries is in `m` and
/// each key of `m` has an entry.
pub proof fn lemma_entries_to_map_is<V>(s: Seq<(Seq<u8>, V)>, m: Map<Seq<u8>, V>)
    requires
        keys_ascending(s),
        forall|i: int| #![trigger s[i]] 0 <= i < s.len() ==> m.contains_key(s[i].0) && m[s[i].0] == s[i].1,
        forall|k: Seq<u8>| #[trigger] m.contains_key(k) ==> exists|i: int| 0 <= i < s.len() && s[i].0 == k,
    ensures
        entries_to_map(s) == m,
{
    assert forall|k: Seq<u8>| #[trigger] entries_to_map(s).contains_key(k) == m.contains_key(k) by {
        if entries_to_map(s).contains_key(k) {
            let i = key_index(s, k);
            assert(s[i].0 == k);
        }
        if m.contains_key(k) {
            let i = choose|i: int| 0 <= i < s.len() && s[i].0 == k;
            assert(0 <= i < s.len() && s[i].0 == k);
        }
    }
    assert forall|k: Seq<u8>| #[trigger] m.contains_key(k) implies entries_to_map(s)[k] == m[k] by {
        let i = choose|i: int| 0 <= i < s.len() && s[i].0 == k;
        assert(0 <= i < s.len() && s[i].0 == k);
        lemma_entries_to_map_at(s, i);
    }
    assert(entries_to_map(s) =~= m);
}

/// The number of keys a sequence of ascending entries maps equals its length.
proof fn lemma_dom_len<V>(s: Seq<(Seq<u8>, V)>)
    requires
        keys_ascending(s),
    ensures
        entries_to_map(s).dom().finite(),
        entries_to_map(s).dom().len() == s.len(),
    decreases s.len(),
{
    if s.len() == 0 {
        assert(entries_to_map(s).dom() =~= Set::<Seq<u8>>::empty());
    } else {
        let t = s.drop_last();
        assert(keys_ascending(t));
        lemma_dom_len(t);
        let last = s.last().0;
        assert forall|i: int| 0 <= i < t.len() implies t[i].0 != last by {
            assert(lex_lt(s[i].0, s[s.len() - 1].0));
            lemma_lex_total(last, last);
        }
        assert(entries_to_map(s).dom() =~= entries_to_map(t).dom().insert(last)) by {
            assert forall|k: Seq<u8>| entries_to_map(s).dom().contains(k) implies entries_to_map(
                t,
            ).dom().insert(last).contains(k) by {
                let i = choose|i: int| 0 <= i < s.len() && s[i].0 == k;
                if i < s.len() - 1 {
                    assert(t[i].0 == k);
                }
            }
            assert forall|k: Seq<u8>| entries_to_map(t).dom().insert(last).contains(k) implies entries_to_map(
                s,
            ).dom().contains(k) by {
                if k == last {
                    assert(s[s.len() - 1].0 == k);
                } else {
                    let i = choose|i: int| 0 <= i < t.len() && t[i].0 == k;
                    assert(s[i].0 == k);
                }
            }
        }
    }
}

} // verus!
