//! An association table with string keys, kept sorted in lexicographic key
//! order with no duplicates — the same shape and iteration order that the
//! host's key-value store gives a key prefix.  The view is the sequence of
//! (key characters, deep value view) pairs.
use crate::str_order::{lemma_lex_connex, lemma_lex_irrefl, lemma_lex_trans};
use crate::str_order::{lex_lt, str_lt};
use vstd::prelude::*;

verus! {

/// Keys appear in strictly increasing lexicographic order.
pub open spec fn keys_sorted<W>(s: Seq<(Seq<char>, W)>) -> bool {
    forall|i: int, j: int| 0 <= i < j < s.len() ==> lex_lt(s[i].0, s[j].0)
}

/// The value stored under `k`: the first entry with that key, if any.
pub open spec fn seq_get<W>(s: Seq<(Seq<char>, W)>, k: Seq<char>) -> Option<W>
    decreases s.len(),
{
    if s.len() == 0 {
        None
    } else if s[0].0 == k {
        Some(s[0].1)
    } else {
        seq_get(s.drop_first(), k)
    }
}

/// Whether some entry carries the key `k`.
pub open spec fn seq_has_key<W>(s: Seq<(Seq<char>, W)>, k: Seq<char>) -> bool {
    seq_get(s, k) is Some
}

/// How many leading entries have keys strictly below `k`; in a sorted
/// sequence this is where `k` belongs.
pub open spec fn first_ge<W>(s: Seq<(Seq<char>, W)>, k: Seq<char>) -> int
    decreases s.len(),
{
    if s.len() == 0 {
        0
    } else if lex_lt(s[0].0, k) {
        1 + first_ge(s.drop_first(), k)
    } else {
        0
    }
}

/// A scan that stopped at the first key not below `k` found `first_ge`.
pub proof fn lemma_scan_first_ge<W>(s: Seq<(Seq<char>, W)>, k: Seq<char>, i: int)
    requires
        0 <= i <= s.len(),
        forall|j: int| 0 <= j < i ==> lex_lt(s[j].0, k),
        i == s.len() || !lex_lt(s[i].0, k),
    ensures
        first_ge(s, k) == i,
    decreases i,
{
    if i > 0 {
        lemma_scan_first_ge(s.drop_first(), k, i - 1);
    }
}

/// An entry at `i` whose key no earlier entry shares is the one looked up.
pub proof fn lemma_get_by_index<W>(s: Seq<(Seq<char>, W)>, k: Seq<char>, i: int)
    requires
        0 <= i < s.len(),
        s[i].0 == k,
        forall|j: int| 0 <= j < i ==> s[j].0 != k,
    ensures
        seq_get(s, k) == Some(s[i].1),
    decreases i,
{
    if i > 0 {
        lemma_get_by_index(s.drop_first(), k, i - 1);
    }
}

/// A key on no entry is not found.
pub proof fn lemma_get_absent<W>(s: Seq<(Seq<char>, W)>, k: Seq<char>)
    requires
        forall|j: int| 0 <= j < s.len() ==> s[j].0 != k,
    ensures
        seq_get(s, k) is None,
    decreases s.len(),
{
    if s.len() > 0 {
        lemma_get_absent(s.drop_first(), k);
    }
}

/// Replacing the entry at `i` leaves every other key's lookup unchanged.
pub proof fn lemma_get_update_other<W>(s: Seq<(Seq<char>, W)>, i: int, e: (Seq<char>, W), k: Seq<char>)
    requires
        0 <= i < s.len(),
        s[i].0 != k,
        e.0 != k,
    ensures
        seq_get(s.update(i, e), k) == seq_get(s, k),
    decreases s.len(),
{
    let t = s.update(i, e);
    assert(t.len() == s.len());
    if i == 0 {
        assert(t.drop_first() =~= s.drop_first());
    } else {
        assert(t[0] == s[0]);
        if s[0].0 != k {
            assert(t.drop_first() =~= s.drop_first().update(i - 1, e));
            lemma_get_update_other(s.drop_first(), i - 1, e, k);
        }
    }
}

/// Inserting an entry with a different key leaves `k`'s lookup unchanged.
pub proof fn lemma_get_insert_other<W>(s: Seq<(Seq<char>, W)>, i: int, e: (Seq<char>, W), k: Seq<char>)
    requires
        0 <= i <= s.len(),
        e.0 != k,
    ensures
        seq_get(s.insert(i, e), k) == seq_get(s, k),
    decreases s.len(),
{
    let t = s.insert(i, e);
    assert(t.len() == s.len() + 1);
    if i == 0 {
        assert(t[0] == e);
        assert(t.drop_first() =~= s);
    } else {
        assert(t[0] == s[0]);
        if s[0].0 != k {
            assert(t.drop_first() =~= s.drop_first().insert(i - 1, e));
            lemma_get_insert_other(s.drop_first(), i - 1, e, k);
        }
    }
}

/// Taking the entry at `i` out leaves every other key's lookup unchanged.
pub proof fn lemma_get_remove_other<W>(s: Seq<(Seq<char>, W)>, i: int, k: Seq<char>)
    requires
        0 <= i < s.len(),
        s[i].0 != k,
    ensures
        seq_get(s.remove(i), k) == seq_get(s, k),
    decreases s.len(),
{
    let t = s.remove(i);
    assert(t.len() == s.len() - 1);
    if i == 0 {
        assert(t =~= s.drop_first());
    } else {
        assert(t[0] == s[0]);
        if s[0].0 != k {
            assert(t.drop_first() =~= s.drop_first().remove(i - 1));
            lemma_get_remove_other(s.drop_first(), i - 1, k);
        }
    }
}

/// Dropping the first entry of a sorted sequence keeps it sorted.
pub proof fn lemma_keys_sorted_drop_first<W>(s: Seq<(Seq<char>, W)>)
    requires
        keys_sorted(s),
        s.len() > 0,
    ensures
        keys_sorted(s.drop_first()),
{
    assert forall|i: int, j: int| 0 <= i < j < s.drop_first().len() implies lex_lt(
        s.drop_first()[i].0,
        s.drop_first()[j].0,
    ) by {
        assert(s.drop_first()[i] == s[i + 1]);
        assert(s.drop_first()[j] == s[j + 1]);
    }
}

/// In a sorted sequence, a key that stands on some entry is found.
pub proof fn lemma_entry_key_found<W>(s: Seq<(Seq<char>, W)>, i: int)
    requires
        keys_sorted(s),
        0 <= i < s.len(),
    ensures
        seq_has_key(s, s[i].0),
    decreases i,
{
    if i == 0 {
    } else {
        lemma_keys_sorted_drop_first(s);
        lemma_entry_key_found(s.drop_first(), i - 1);
        assert(s.drop_first()[i - 1] == s[i]);
        lemma_lex_irrefl(s[0].0);
        assert(s[0].0 != s[i].0);
    }
}

/// In a sorted sequence a present key sits exactly at `first_ge`.
pub proof fn lemma_sorted_get_position<W>(s: Seq<(Seq<char>, W)>, k: Seq<char>)
    requires
        keys_sorted(s),
    ensures
        0 <= first_ge(s, k) <= s.len(),
        forall|j: int| 0 <= j < first_ge(s, k) ==> lex_lt(s[j].0, k),
        seq_has_key(s, k) <==> (first_ge(s, k) < s.len() && s[first_ge(s, k)].0 == k),
        seq_has_key(s, k) ==> seq_get(s, k) == Some(s[first_ge(s, k)].1),
    decreases s.len(),
{
    if s.len() == 0 {
    } else if lex_lt(s[0].0, k) {
        assert(keys_sorted(s.drop_first())) by {
            assert forall|i: int, j: int|
                0 <= i < j < s.drop_first().len() implies lex_lt(
                s.drop_first()[i].0,
                s.drop_first()[j].0,
            ) by {
                assert(s.drop_first()[i] == s[i + 1]);
                assert(s.drop_first()[j] == s[j + 1]);
            }
        }
        lemma_sorted_get_position(s.drop_first(), k);
        lemma_lex_irrefl(s[0].0);
        assert forall|j: int| 0 <= j < first_ge(s, k) implies lex_lt(s[j].0, k) by {
            if j > 0 {
                assert(s.drop_first()[j - 1] == s[j]);
            }
        }
        assert(s[0].0 != k);
        assert(seq_get(s, k) == seq_get(s.drop_first(), k));
        if seq_has_key(s, k) {
            assert(first_ge(s.drop_first(), k) < s.drop_first().len());
            assert(s[first_ge(s, k)] == s.drop_first()[first_ge(s.drop_first(), k)]);
        }
    } else {
        // every key from here on is at or above k, so k can only sit at 0
        if s[0].0 == k {
        } else {
            lemma_lex_connex(s[0].0, k);
            assert(lex_lt(k, s[0].0));
            assert forall|j: int| 0 <= j < s.len() implies s[j].0 != k by {
                if j > 0 {
                    lemma_lex_trans(k, s[0].0, s[j].0);
                }
                lemma_lex_irrefl(s[j].0);
            }
            lemma_get_absent(s, k);
        }
    }
}

/// Storing under a key: replace the entry in place if the key is present,
/// else insert it where it belongs.  This is exactly what
/// `SortedMap::insert` does to the view.
pub open spec fn seq_put<W>(s: Seq<(Seq<char>, W)>, k: Seq<char>, v: W) -> Seq<(Seq<char>, W)> {
    if seq_has_key(s, k) {
        s.update(first_ge(s, k), (k, v))
    } else {
        s.insert(first_ge(s, k), (k, v))
    }
}

/// A table of values keyed by strings, sorted by key.
#[derive(Debug)]
pub struct SortedMap<V> {
    pub entries: Vec<(String, V)>,
}

impl<V: DeepView> View for SortedMap<V> {
    type V = Seq<(Seq<char>, <V as DeepView>::V)>;

    open spec fn view(&self) -> Seq<(Seq<char>, <V as DeepView>::V)> {
        Seq::new(self.entries@.len(), |i: int| (self.entries@[i].0@, self.entries@[i].1.deep_view()))
    }
}

impl<V: DeepView> DeepView for SortedMap<V> {
    type V = Seq<(Seq<char>, <V as DeepView>::V)>;

    open spec fn deep_view(&self) -> Seq<(Seq<char>, <V as DeepView>::V)> {
        self.view()
    }
}

impl<V: DeepView> SortedMap<V> {
    /// Entries are strictly sorted by key, so each key occurs at most once.
    pub open spec fn wf(self) -> bool {
        keys_sorted(self@)
    }

    pub fn new() -> (r: Self)
        ensures
            r@ == Seq::<(Seq<char>, <V as DeepView>::V)>::empty(),
            r.wf(),
    {
        let r = SortedMap { entries: Vec::new() };
        proof {
            assert(r@ =~= Seq::<(Seq<char>, <V as DeepView>::V)>::empty());
        }
        r
    }

    pub fn len(&self) -> (r: usize)
        ensures
            r == self@.len(),
    {
        self.entries.len()
    }

    pub fn is_empty(&self) -> (r: bool)
        ensures
            r == (self@.len() == 0),
    {
        self.entries.len() == 0
    }

    /// Look the key up by a linear scan.
    pub fn get(&self, key: &String) -> (r: Option<&V>)
        ensures
            match r {
                Some(v) => seq_get(self@, key@) == Some(v.deep_view()),
                None => seq_get(self@, key@) is None,
            },
    {
        let n = self.entries.len();
        let mut j: usize = 0;
        loop
            invariant
                j <= n,
                n == self@.len(),
                forall|j2: int| 0 <= j2 < j ==> self@[j2].0 != key@,
            decreases n - j,
        {
            if j == n {
                proof {
                    lemma_get_absent(self@, key@);
                }
                return None;
            }
            if self.entries[j].0.eq(key) {
                proof {
                    lemma_get_by_index(self@, key@, j as int);
                }
                return Some(&self.entries[j].1);
            }
            j = j + 1;
        }
    }

    pub fn has(&self, key: &String) -> (r: bool)
        ensures
            r == seq_has_key(self@, key@),
    {
        self.get(key).is_some()
    }

    /// Store `value` under `key`, replacing any earlier value and keeping
    /// the entries sorted.
    pub fn insert(&mut self, key: String, value: V)
        requires
            old(self).wf(),
        ensures
            final(self).wf(),
            ({
                let i = first_ge(old(self)@, key@);
                if seq_has_key(old(self)@, key@) {
                    final(self)@ == old(self)@.update(i, (key@, value.deep_view()))
                } else {
                    final(self)@ == old(self)@.insert(i, (key@, value.deep_view()))
                }
            }),
            seq_get(final(self)@, key@) == Some(value.deep_view()),
            forall|k2: Seq<char>| k2 != key@ ==> seq_get(final(self)@, k2) == seq_get(
                old(self)@,
                k2,
            ),
            final(self)@.len() == old(self)@.len() + (if seq_has_key(old(self)@, key@) {
                0int
            } else {
                1int
            }),
    {
        let ghost s0 = self@;
        let ghost kv = key@;
        let n = self.entries.len();
        let mut i: usize = 0;
        loop
            invariant
                i <= n,
                n == self@.len(),
                *self == *old(self),
                kv == key@,
                forall|j: int| 0 <= j < i ==> lex_lt(self@[j].0, kv),
            ensures
                i <= n,
                *self == *old(self),
                forall|j: int| 0 <= j < i ==> lex_lt(self@[j].0, kv),
                i == n || !lex_lt(self@[i as int].0, kv),
            decreases n - i,
        {
            if i == n {
                break;
            }
            assert(self@[i as int].0 == self.entries@[i as int].0@);
            if str_lt(self.entries[i].0.as_str(), key.as_str()) {
                i = i + 1;
            } else {
                break;
            }
        }
        proof {
            lemma_scan_first_ge(s0, kv, i as int);
            lemma_sorted_get_position(s0, kv);
        }
        let found = i < n && self.entries[i].0.eq(&key);
        if found {
            self.entries.remove(i);
            self.entries.insert(i, (key, value));
            proof {
                let e = (s0[i as int].0, value.deep_view());
                assert(self@ =~= s0.update(i as int, e));
                self.lemma_after_update(s0, i as int, e);
            }
        } else {
            self.entries.insert(i, (key, value));
            proof {
                let e = (kv, value.deep_view());
                assert(self@ =~= s0.insert(i as int, e));
                self.lemma_after_insert(s0, i as int, e);
            }
        }
    }

    /// Helper for the replacing branch of `insert`.
    proof fn lemma_after_update(&self, s0: Seq<(Seq<char>, <V as DeepView>::V)>, i: int, e: (
        Seq<char>,
        <V as DeepView>::V,
    ))
        requires
            keys_sorted(s0),
            0 <= i < s0.len(),
            s0[i].0 == e.0,
            self@ == s0.update(i, e),
        ensures
            keys_sorted(self@),
            seq_get(self@, e.0) == Some(e.1),
            forall|k2: Seq<char>| k2 != e.0 ==> seq_get(self@, k2) == seq_get(s0, k2),
    {
        let t = self@;
        assert forall|a: int, b: int| 0 <= a < b < t.len() implies lex_lt(t[a].0, t[b].0) by {
            assert(t[a].0 == s0[a].0);
            assert(t[b].0 == s0[b].0);
        }
        assert forall|j: int| 0 <= j < i implies t[j].0 != e.0 by {
            assert(lex_lt(s0[j].0, s0[i].0));
            lemma_lex_irrefl(e.0);
        }
        lemma_get_by_index(t, e.0, i);
        assert forall|k2: Seq<char>| k2 != e.0 implies seq_get(t, k2) == seq_get(s0, k2) by {
            lemma_get_update_other(s0, i, e, k2);
        }
    }

    /// Helper for the extending branch of `insert`.
    proof fn lemma_after_insert(&self, s0: Seq<(Seq<char>, <V as DeepView>::V)>, i: int, e: (
        Seq<char>,
        <V as DeepView>::V,
    ))
        requires
            keys_sorted(s0),
            0 <= i <= s0.len(),
            forall|j: int| 0 <= j < i ==> lex_lt(s0[j].0, e.0),
            i < s0.len() ==> !lex_lt(s0[i].0, e.0),
            i == s0.len() || s0[i].0 != e.0,
            self@ == s0.insert(i, e),
        ensures
            keys_sorted(self@),
            seq_get(self@, e.0) == Some(e.1),
            forall|k2: Seq<char>| k2 != e.0 ==> seq_get(self@, k2) == seq_get(s0, k2),
    {
        let t = self@;
        assert(t.len() == s0.len() + 1);
        if i < s0.len() {
            lemma_lex_connex(s0[i].0, e.0);
            assert(lex_lt(e.0, s0[i].0));
        }
        assert forall|a: int, b: int| 0 <= a < b < t.len() implies lex_lt(t[a].0, t[b].0) by {
            if a < i && b < i {
                assert(t[a] == s0[a] && t[b] == s0[b]);
            } else if a < i && b == i {
                assert(t[a] == s0[a]);
            } else if a < i && b > i {
                assert(t[a] == s0[a] && t[b] == s0[b - 1]);
            } else if a == i && b > i {
                assert(t[b] == s0[b - 1]);
                assert(lex_lt(e.0, s0[i].0));
                if b - 1 > i {
                    lemma_lex_trans(e.0, s0[i].0, s0[b - 1].0);
                }
            } else {
                assert(t[a] == s0[a - 1] && t[b] == s0[b - 1]);
            }
        }
        assert forall|j: int| 0 <= j < i implies t[j].0 != e.0 by {
            assert(t[j] == s0[j]);
            lemma_lex_irrefl(e.0);
        }
        assert(t[i] == e);
        lemma_get_by_index(t, e.0, i);
        assert forall|k2: Seq<char>| k2 != e.0 implies seq_get(t, k2) == seq_get(s0, k2) by {
            lemma_get_insert_other(s0, i, e, k2);
        }
    }

    /// Take the value stored under `key` out of the table, if any.
    pub fn remove(&mut self, key: &String) -> (r: Option<V>)
        requires
            old(self).wf(),
        ensures
            final(self).wf(),
            seq_get(final(self)@, key@) is None,
            forall|k2: Seq<char>| k2 != key@ ==> seq_get(final(self)@, k2) == seq_get(
                old(self)@,
                k2,
            ),
            match r {
                Some(v) => seq_get(old(self)@, key@) == Some(v.deep_view()) && final(self)@ == old(
                    self,
                )@.remove(first_ge(old(self)@, key@)),
                None => seq_get(old(self)@, key@) is None && *final(self) == *old(self),
            },
    {
        let ghost s0 = self@;
        let n = self.entries.len();
        let mut j: usize = 0;
        loop
            invariant
                j <= n,
                n == self@.len(),
                *self == *old(self),
                s0 == self@,
                forall|j2: int| 0 <= j2 < j ==> self@[j2].0 != key@,
            ensures
                j <= n,
                *self == *old(self),
                s0 == self@,
                forall|j2: int| 0 <= j2 < j ==> self@[j2].0 != key@,
                j < n ==> self@[j as int].0 == key@,
            decreases n - j,
        {
            if j == n {
                break;
            }
            assert(self@[j as int].0 == self.entries@[j as int].0@);
            if self.entries[j].0.eq(key) {
                break;
            }
            j = j + 1;
        }
        if j == n {
            proof {
                lemma_get_absent(s0, key@);
            }
            return None;
        }
        let (_, v) = self.entries.remove(j);
        proof {
            assert(self@ =~= s0.remove(j as int));
            lemma_get_by_index(s0, key@, j as int);
            lemma_sorted_get_position(s0, key@);
            assert forall|j2: int| 0 <= j2 < j implies lex_lt(s0[j2].0, key@) by {
                assert(lex_lt(s0[j2].0, s0[j as int].0));
            }
            lemma_lex_irrefl(key@);
            lemma_scan_first_ge(s0, key@, j as int);
            assert forall|a: int, b: int| 0 <= a < b < self@.len() implies lex_lt(
                self@[a].0,
                self@[b].0,
            ) by {
                if a < j {
                    assert(self@[a] == s0[a]);
                } else {
                    assert(self@[a] == s0[a + 1]);
                }
                if b < j {
                    assert(self@[b] == s0[b]);
                } else {
                    assert(self@[b] == s0[b + 1]);
                }
            }
            assert forall|k2: Seq<char>| k2 != key@ implies seq_get(self@, k2) == seq_get(
                s0,
                k2,
            ) by {
                lemma_get_remove_other(s0, j as int, k2);
            }
            assert forall|j2: int| 0 <= j2 < self@.len() implies self@[j2].0 != key@ by {
                if j2 < j {
                    assert(self@[j2] == s0[j2]);
                    assert(lex_lt(s0[j2].0, s0[j as int].0));
                    lemma_lex_irrefl(key@);
                } else {
                    assert(self@[j2] == s0[j2 + 1]);
                    assert(lex_lt(s0[j as int].0, s0[j2 + 1].0));
                    lemma_lex_irrefl(key@);
                }
            }
            lemma_get_absent(self@, key@);
        }
        Some(v)
    }

    /// Drop every entry.
    pub fn clear(&mut self)
        ensures
            final(self)@ == Seq::<(Seq<char>, <V as DeepView>::V)>::empty(),
            final(self).wf(),
    {
        self.entries.clear();
        proof {
            assert(self@ =~= Seq::<(Seq<char>, <V as DeepView>::V)>::empty());
        }
    }
}

} // verus!
