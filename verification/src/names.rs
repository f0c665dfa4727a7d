//! `NameMap`: a map from names to values, kept in ascending name order.
//!
//! It stands where an ordered map keyed by `String` would: each name occurs
//! once, and walking the entries visits the names in ascending order.
use crate::text::{agree_upto, chars_lt, compare_str, Order};
use vstd::prelude::*;

verus! {

/// The names of `s` ascend strictly.
pub open spec fn ascending<V>(s: Seq<(Seq<char>, V)>) -> bool {
    forall|i: int, j: int| 0 <= i < j < s.len() ==> chars_lt(#[trigger] s[i].0, #[trigger] s[j].0)
}

/// `k` is the name of some entry of `s`.
pub open spec fn has_name<V>(s: Seq<(Seq<char>, V)>, k: Seq<char>) -> bool {
    exists|i: int| 0 <= i < s.len() && #[trigger] s[i].0 == k
}

/// The value stored under `k` in `s`, if any.
pub open spec fn lookup<V>(s: Seq<(Seq<char>, V)>, k: Seq<char>) -> Option<V> {
    if has_name(s, k) {
        Some(s[choose|i: int| 0 <= i < s.len() && #[trigger] s[i].0 == k].1)
    } else {
        None
    }
}

/// The names of `s`, in order.
pub open spec fn names_of<V>(s: Seq<(Seq<char>, V)>) -> Seq<Seq<char>> {
    s.map_values(|e: (Seq<char>, V)| e.0)
}

/// No sequence is less than itself.
pub proof fn lemma_lt_irreflexive(a: Seq<char>)
    ensures
        !chars_lt(a, a),
{
}

/// The lexicographic order is transitive.
pub proof fn lemma_lt_transitive(a: Seq<char>, b: Seq<char>, c: Seq<char>)
    requires
        chars_lt(a, b),
        chars_lt(b, c),
    ensures
        chars_lt(a, c),
{
    let k1 = choose|k: int|
        #![trigger agree_upto(a, b, k)]
        agree_upto(a, b, k) && ((k == a.len() && k < b.len()) || (k < a.len() && k < b.len() && a[k]
            < b[k]));
    let k2 = choose|k: int|
        #![trigger agree_upto(b, c, k)]
        agree_upto(b, c, k) && ((k == b.len() && k < c.len()) || (k < b.len() && k < c.len() && b[k]
            < c[k]));
    if k1 <= k2 {
        assert(agree_upto(a, c, k1));
        if k1 < k2 {
            assert(b[k1] == c[k1]);
        }
    } else {
        assert(a[k2] == b[k2]);
        assert(agree_upto(a, c, k2));
    }
}

/// Two sequences that agree up to `k` and differ are ordered one way or the other.
proof fn lemma_lt_total_from(a: Seq<char>, b: Seq<char>, k: int)
    requires
        a != b,
        agree_upto(a, b, k),
    ensures
        chars_lt(a, b) || chars_lt(b, a),
    decreases a.len() - k,
{
    if k < a.len() && k < b.len() && a[k] == b[k] {
        lemma_lt_total_from(a, b, k + 1);
    } else {
        crate::text::lemma_first_difference(a, b, k);
    }
}

/// The lexicographic order is total on distinct sequences.
pub proof fn lemma_lt_total(a: Seq<char>, b: Seq<char>)
    requires
        a != b,
    ensures
        chars_lt(a, b) || chars_lt(b, a),
{
    lemma_lt_total_from(a, b, 0);
}

/// In an ascending sequence, entry `i` is what `lookup` finds under its name.
pub proof fn lemma_lookup_at<V>(s: Seq<(Seq<char>, V)>, i: int)
    requires
        ascending(s),
        0 <= i < s.len(),
    ensures
        has_name(s, s[i].0),
        lookup(s, s[i].0) == Some(s[i].1),
{
    assert(has_name(s, s[i].0));
    let j = choose|j: int| 0 <= j < s.len() && #[trigger] s[j].0 == s[i].0;
    if j < i {
        assert(chars_lt(s[j].0, s[i].0));
    } else if i < j {
        assert(chars_lt(s[i].0, s[j].0));
    }
}

/// A name absent from all entries is not found.
pub proof fn lemma_lookup_absent<V>(s: Seq<(Seq<char>, V)>, k: Seq<char>)
    requires
        forall|i: int| 0 <= i < s.len() ==> #[trigger] s[i].0 != k,
    ensures
        lookup(s, k) is None,
{
}

/// A map from names to values whose entries ascend by name.
pub struct NameMap<V> {
    entries: Vec<(String, V)>,
}

impl<V> View for NameMap<V> {
    type V = Seq<(Seq<char>, V)>;

    closed spec fn view(&self) -> Seq<(Seq<char>, V)> {
        self.entries@.map_values(|e: (String, V)| (e.0@, e.1))
    }
}

impl<V> NameMap<V> {
    /// The entries ascend by name.
    #[verifier::type_invariant]
    pub open spec fn inv(self) -> bool {
        ascending(self@)
    }

    /// The empty map.
    pub fn new() -> (m: NameMap<V>)
        ensures
            m@ == Seq::<(Seq<char>, V)>::empty(),
    {
        let m = NameMap { entries: Vec::new() };
        assert(m@ =~= Seq::<(Seq<char>, V)>::empty());
        m
    }

    /// Number of entries.
    pub fn len(&self) -> (n: usize)
        ensures
            n == self@.len(),
    {
        self.entries.len()
    }

    /// Whether the map is empty.
    pub fn is_empty(&self) -> (b: bool)
        ensures
            b == (self@.len() == 0),
    {
        self.entries.len() == 0
    }

    /// The name of entry `i`.
    pub fn name_at(&self, i: usize) -> (k: &String)
        requires
            i < self@.len(),
        ensures
            k@ == self@[i as int].0,
    {
        &self.entries[i].0
    }

    /// The value of entry `i`.
    pub fn value_at(&self, i: usize) -> (v: &V)
        requires
            i < self@.len(),
        ensures
            *v == self@[i as int].1,
    {
        &self.entries[i].1
    }

    /// The position of `k`'s entry, or, when `k` is absent, the position at
    /// which it would be inserted to keep the names ascending.
    fn position(&self, k: &str) -> (r: (usize, bool))
        ensures
            r.0 <= self@.len(),
            forall|i: int| 0 <= i < r.0 ==> chars_lt(#[trigger] self@[i].0, k@),
            r.1 ==> r.0 < self@.len() && self@[r.0 as int].0 == k@,
            !r.1 ==> r.0 == self@.len() || chars_lt(k@, self@[r.0 as int].0),
    {
        proof {
            use_type_invariant(self);
        }
        let mut i: usize = 0;
        while i < self.entries.len()
            invariant
                i <= self@.len(),
                self@.len() == self.entries@.len(),
                forall|j: int| 0 <= j < i ==> chars_lt(#[trigger] self@[j].0, k@),
            decreases self.entries.len() - i,
        {
            assert(self@[i as int].0 == self.entries@[i as int].0@);
            match compare_str(self.entries[i].0.as_str(), k) {
                Order::Less => {},
                Order::Equal => {
                    return (i, true);
                },
                Order::Greater => {
                    return (i, false);
                },
            }
            i = i + 1;
        }
        (i, false)
    }

    /// The value stored under `k`.
    pub fn get(&self, k: &str) -> (r: Option<&V>)
        ensures
            match r {
                Some(v) => lookup(self@, k@) == Some(*v),
                None => lookup(self@, k@) is None,
            },
    {
        proof {
            use_type_invariant(self);
        }
        let (p, found) = self.position(k);
        if found {
            proof {
                lemma_lookup_at(self@, p as int);
            }
            assert(self@[p as int].1 == self.entries@[p as int].1);
            Some(&self.entries[p].1)
        } else {
            proof {
                assert forall|i: int| 0 <= i < self@.len() implies #[trigger] self@[i].0 != k@ by {
                    if i < p {
                        lemma_lt_irreflexive(k@);
                    } else {
                        if i > p {
                            lemma_lt_transitive(k@, self@[p as int].0, self@[i].0);
                        }
                        lemma_lt_irreflexive(k@);
                    }
                }
                lemma_lookup_absent(self@, k@);
            }
            None
        }
    }

    /// Whether `k` has an entry.
    pub fn contains(&self, k: &str) -> (b: bool)
        ensures
            b == (lookup(self@, k@) is Some),
    {
        match self.get(k) {
            Some(_) => true,
            None => false,
        }
    }

    /// Stores `v` under `k`, replacing and returning any earlier value.
    pub fn insert(&mut self, k: String, v: V) -> (old_value: Option<V>)
        ensures
            old_value == lookup(old(self)@, k@),
            lookup(final(self)@, k@) == Some(v),
            forall|k2: Seq<char>| k2 != k@ ==> lookup(final(self)@, k2) == lookup(old(self)@, k2),
            final(self)@.len() == old(self)@.len() + (if old_value is Some { 0int } else { 1 }),
            forall|n: Seq<char>|
                has_name(final(self)@, n) <==> (has_name(old(self)@, n) || n == k@),
    {
        proof {
            use_type_invariant(&*self);
        }
        let ghost s0 = self@;
        let (p, found) = self.position(k.as_str());
        let mut entries: Vec<(String, V)> = Vec::new();
        std::mem::swap(&mut entries, &mut self.entries);
        assert(entries@.map_values(|e: (String, V)| (e.0@, e.1)) == s0);
        if found {
            let old_entry = entries.remove(p);
            entries.insert(p, (k, v));
            let ghost s1 = entries@.map_values(|e: (String, V)| (e.0@, e.1));
            proof {
                assert(s1 =~= s0.update(p as int, (k@, v)));
                assert(ascending(s1)) by {
                    assert forall|i: int, j: int| 0 <= i < j < s1.len() implies chars_lt(
                        #[trigger] s1[i].0,
                        #[trigger] s1[j].0,
                    ) by {
                        assert(s1[i].0 == s0[i].0);
                        assert(s1[j].0 == s0[j].0);
                    }
                }
                lemma_lookup_at(s0, p as int);
                lemma_lookup_at(s1, p as int);
                assert forall|k2: Seq<char>| k2 != k@ implies lookup(s1, k2) == lookup(s0, k2) by {
                    if has_name(s0, k2) {
                        let i = choose|i: int| 0 <= i < s0.len() && #[trigger] s0[i].0 == k2;
                        lemma_lookup_at(s0, i);
                        lemma_lookup_at(s1, i);
                    } else {
                        assert forall|i: int| 0 <= i < s1.len() implies #[trigger] s1[i].0
                            != k2 by {
                            if i != p {
                                assert(s1[i].0 == s0[i].0);
                            }
                        }
                    }
                }
                assert forall|n: Seq<char>|
                    has_name(s1, n) <==> (has_name(s0, n) || n == k@) by {
                    if has_name(s1, n) {
                        let i = choose|i: int| 0 <= i < s1.len() && #[trigger] s1[i].0 == n;
                        assert(s1[i].0 == s0[i].0);
                    }
                    if has_name(s0, n) {
                        let i = choose|i: int| 0 <= i < s0.len() && #[trigger] s0[i].0 == n;
                        assert(s1[i].0 == s0[i].0);
                    }
                    if n == k@ {
                        assert(s1[p as int].0 == n);
                    }
                }
            }
            self.entries = entries;
            Some(old_entry.1)
        } else {
            entries.insert(p, (k, v));
            let ghost s1 = entries@.map_values(|e: (String, V)| (e.0@, e.1));
            proof {
                assert(s1 =~= s0.insert(p as int, (k@, v)));
                assert(ascending(s1)) by {
                    assert forall|i: int, j: int| 0 <= i < j < s1.len() implies chars_lt(
                        #[trigger] s1[i].0,
                        #[trigger] s1[j].0,
                    ) by {
                        if j < p {
                            assert(s1[i].0 == s0[i].0 && s1[j].0 == s0[j].0);
                        } else if j == p {
                            assert(s1[i].0 == s0[i].0);
                        } else if i == p {
                            assert(s1[j].0 == s0[j - 1].0);
                            if j - 1 > p {
                                assert(chars_lt(s0[p as int].0, s0[j - 1].0));
                                lemma_lt_transitive(k@, s0[p as int].0, s0[j - 1].0);
                            }
                        } else if i < p {
                            assert(s1[i].0 == s0[i].0);
                            assert(s1[j].0 == s0[j - 1].0);
                            assert(chars_lt(s0[i].0, s0[j - 1].0));
                        } else {
                            assert(s1[i].0 == s0[i - 1].0);
                            assert(s1[j].0 == s0[j - 1].0);
                            assert(chars_lt(s0[i - 1].0, s0[j - 1].0));
                        }
                    }
                }
                assert forall|i: int| 0 <= i < s0.len() implies #[trigger] s0[i].0 != k@ by {
                    if i < p {
                        lemma_lt_irreflexive(k@);
                    } else {
                        if i > p {
                            lemma_lt_transitive(k@, s0[p as int].0, s0[i].0);
                        }
                        lemma_lt_irreflexive(k@);
                    }
                }
                lemma_lookup_absent(s0, k@);
                lemma_lookup_at(s1, p as int);
                assert forall|k2: Seq<char>| k2 != k@ implies lookup(s1, k2) == lookup(s0, k2) by {
                    if has_name(s0, k2) {
                        let i = choose|i: int| 0 <= i < s0.len() && #[trigger] s0[i].0 == k2;
                        lemma_lookup_at(s0, i);
                        if i < p {
                            assert(s1[i] == s0[i]);
                            lemma_lookup_at(s1, i);
                        } else {
                            assert(s1[i + 1] == s0[i]);
                            lemma_lookup_at(s1, i + 1);
                        }
                    } else {
                        assert forall|i: int| 0 <= i < s1.len() implies #[trigger] s1[i].0
                            != k2 by {
                            if i < p {
                                assert(s1[i] == s0[i]);
                            } else if i > p {
                                assert(s1[i] == s0[i - 1]);
                            }
                        }
                    }
                }
                assert forall|n: Seq<char>|
                    has_name(s1, n) <==> (has_name(s0, n) || n == k@) by {
                    if has_name(s1, n) {
                        let i = choose|i: int| 0 <= i < s1.len() && #[trigger] s1[i].0 == n;
                        if i < p {
                            assert(s1[i] == s0[i]);
                        } else if i > p {
                            assert(s1[i] == s0[i - 1]);
                        }
                    }
                    if has_name(s0, n) {
                        let i = choose|i: int| 0 <= i < s0.len() && #[trigger] s0[i].0 == n;
                        if i < p {
                            assert(s1[i] == s0[i]);
                        } else {
                            assert(s1[i + 1] == s0[i]);
                        }
                    }
                    if n == k@ {
                        assert(s1[p as int].0 == n);
                    }
                }
            }
            self.entries = entries;
            None
        }
    }

    /// Removes `k`'s entry and returns its value.
    pub fn remove(&mut self, k: &str) -> (old_value: Option<V>)
        ensures
            old_value == lookup(old(self)@, k@),
            lookup(final(self)@, k@) is None,
            forall|k2: Seq<char>| k2 != k@ ==> lookup(final(self)@, k2) == lookup(old(self)@, k2),
            forall|n: Seq<char>|
                has_name(final(self)@, n) <==> (has_name(old(self)@, n) && n != k@),
    {
        proof {
            use_type_invariant(&*self);
        }
        let ghost s0 = self@;
        let (p, found) = self.position(k);
        if !found {
            proof {
                assert forall|i: int| 0 <= i < s0.len() implies #[trigger] s0[i].0 != k@ by {
                    if i < p {
                        lemma_lt_irreflexive(k@);
                    } else {
                        if i > p {
                            lemma_lt_transitive(k@, s0[p as int].0, s0[i].0);
                        }
                        lemma_lt_irreflexive(k@);
                    }
                }
                lemma_lookup_absent(s0, k@);
            }
            return None;
        }
        let mut entries: Vec<(String, V)> = Vec::new();
        std::mem::swap(&mut entries, &mut self.entries);
        assert(entries@.map_values(|e: (String, V)| (e.0@, e.1)) == s0);
        let old_entry = entries.remove(p);
        let ghost s1 = entries@.map_values(|e: (String, V)| (e.0@, e.1));
        proof {
            assert(s1 =~= s0.remove(p as int));
            assert(ascending(s1)) by {
                assert forall|i: int, j: int| 0 <= i < j < s1.len() implies chars_lt(
                    #[trigger] s1[i].0,
                    #[trigger] s1[j].0,
                ) by {
                    if j < p {
                        assert(s1[i] == s0[i] && s1[j] == s0[j]);
                    } else if i < p {
                        assert(s1[i] == s0[i] && s1[j] == s0[j + 1]);
                    } else {
                        assert(s1[i] == s0[i + 1] && s1[j] == s0[j + 1]);
                    }
                }
            }
            lemma_lookup_at(s0, p as int);
            assert forall|i: int| 0 <= i < s1.len() implies #[trigger] s1[i].0 != k@ by {
                if i < p {
                    assert(s1[i] == s0[i]);
                    assert(chars_lt(s0[i].0, s0[p as int].0));
                } else {
                    assert(s1[i] == s0[i + 1]);
                    assert(chars_lt(s0[p as int].0, s0[i + 1].0));
                }
                lemma_lt_irreflexive(k@);
            }
            lemma_lookup_absent(s1, k@);
            assert forall|k2: Seq<char>| k2 != k@ implies lookup(s1, k2) == lookup(s0, k2) by {
                if has_name(s0, k2) {
                    let i = choose|i: int| 0 <= i < s0.len() && #[trigger] s0[i].0 == k2;
                    lemma_lookup_at(s0, i);
                    if i < p {
                        assert(s1[i] == s0[i]);
                        lemma_lookup_at(s1, i);
                    } else {
                        assert(s1[i - 1] == s0[i]);
                        lemma_lookup_at(s1, i - 1);
                    }
                } else {
                    assert forall|i: int| 0 <= i < s1.len() implies #[trigger] s1[i].0 != k2 by {
                        if i < p {
                            assert(s1[i] == s0[i]);
                        } else {
                            assert(s1[i] == s0[i + 1]);
                        }
                    }
                }
            }
            assert forall|n: Seq<char>| has_name(s1, n) <==> (has_name(s0, n) && n != k@) by {
                if has_name(s1, n) {
                    let i = choose|i: int| 0 <= i < s1.len() && #[trigger] s1[i].0 == n;
                    if i < p {
                        assert(s1[i] == s0[i]);
                    } else {
                        assert(s1[i] == s0[i + 1]);
                    }
                }
                if has_name(s0, n) && n != k@ {
                    let i = choose|i: int| 0 <= i < s0.len() && #[trigger] s0[i].0 == n;
                    if i < p {
                        assert(s1[i] == s0[i]);
                    } else {
                        assert(i != p);
                        assert(s1[i - 1] == s0[i]);
                    }
                }
            }
        }
        self.entries = entries;
        Some(old_entry.1)
    }
}

impl<V> NameMap<V> {
    /// The names, in ascending order.
    pub fn names(&self) -> (r: Vec<String>)
        ensures
            r@.map_values(|s: String| s@) == names_of(self@),
            r@.len() == self@.len(),
            forall|i: int| 0 <= i < r@.len() ==> #[trigger] r@[i]@ == self@[i].0,
    {
        let mut r: Vec<String> = Vec::new();
        let mut i: usize = 0;
        while i < self.entries.len()
            invariant
                i <= self.entries@.len(),
                self@.len() == self.entries@.len(),
                r@.len() == i,
                forall|j: int| 0 <= j < i ==> #[trigger] r@[j]@ == self@[j].0,
            decreases self.entries.len() - i,
        {
            assert(self@[i as int].0 == self.entries@[i as int].0@);
            r.push(self.entries[i].0.clone());
            i = i + 1;
        }
        assert(r@.map_values(|s: String| s@) =~= names_of(self@));
        r
    }

    /// A map with the same names, in the same order, holding `values`.
    pub fn with_values<W>(&self, values: Vec<W>) -> (r: NameMap<W>)
        requires
            values@.len() == self@.len(),
        ensures
            r@.len() == self@.len(),
            forall|i: int| 0 <= i < r@.len() ==> #[trigger] r@[i] == (self@[i].0, values@[i]),
    {
        proof {
            use_type_invariant(self);
        }
        let ghost vals = values@;
        let mut out: Vec<(String, W)> = Vec::new();
        let mut values = values;
        let mut rest: Vec<W> = Vec::new();
        // Reverse the values so that popping yields them in order.
        let mut k: usize = values.len();
        while k > 0
            invariant
                k == values@.len(),
                k + rest@.len() == vals.len(),
                values@ == vals.subrange(0, k as int),
                forall|j: int| 0 <= j < rest@.len() ==> #[trigger] rest@[j] == vals[vals.len() - 1 - j],
            decreases k,
        {
            let v = values.pop().unwrap();
            rest.push(v);
            k = k - 1;
            assert(values@ =~= vals.subrange(0, k as int));
        }
        let mut i: usize = 0;
        while i < self.entries.len()
            invariant
                i <= self.entries@.len(),
                self@.len() == self.entries@.len(),
                vals.len() == self@.len(),
                rest@.len() + i == vals.len(),
                forall|j: int| 0 <= j < rest@.len() ==> #[trigger] rest@[j] == vals[vals.len() - 1 - j],
                out@.len() == i,
                forall|j: int| 0 <= j < i ==> #[trigger] out@[j].0@ == self@[j].0 && out@[j].1 == vals[j],
            decreases self.entries.len() - i,
        {
            assert(self@[i as int].0 == self.entries@[i as int].0@);
            let v = rest.pop().unwrap();
            out.push((self.entries[i].0.clone(), v));
            i = i + 1;
        }
        let r = NameMap { entries: out };
        assert forall|a: int, b: int| 0 <= a < b < r@.len() implies chars_lt(
            #[trigger] r@[a].0,
            #[trigger] r@[b].0,
        ) by {
            assert(r@[a].0 == self@[a].0);
            assert(r@[b].0 == self@[b].0);
        }
        r
    }
}

impl<V: Clone> Clone for NameMap<V> {
    /// A map with the same names, each value cloned.
    fn clone(&self) -> (r: Self)
        ensures
            r@.len() == self@.len(),
            forall|i: int| 0 <= i < r@.len() ==> #[trigger] r@[i].0 == self@[i].0,
            forall|i: int| 0 <= i < r@.len() ==> cloned::<V>(self@[i].1, #[trigger] r@[i].1),
    {
        let mut vals: Vec<V> = Vec::new();
        let mut i: usize = 0;
        while i < self.len()
            invariant
                i <= self@.len(),
                vals@.len() == i,
                forall|j: int| 0 <= j < i ==> cloned::<V>(self@[j].1, #[trigger] vals@[j]),
            decreases self@.len() - i,
        {
            let v = self.value_at(i).clone();
            vals.push(v);
            i = i + 1;
        }
        let ghost vs = vals@;
        let r = self.with_values(vals);
        assert forall|i: int| 0 <= i < r@.len() implies #[trigger] r@[i].0 == self@[i].0 && cloned::<V>(
            self@[i].1,
            r@[i].1,
        ) by {
            assert(r@[i] == (self@[i].0, vs[i]));
        }
        r
    }
}

} // verus!
