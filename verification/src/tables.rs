//! Sorted association tables.
//!
//! Every table of the ledger is a vector of entries kept strictly sorted by
//! key in lexicographic order ([`crate::ord::lex_lt`]): [`StrMap`] for tables
//! keyed by one string (the token registry and the royalty registry) and
//! [`PairMap`] for tables keyed by two (balances by owner and token,
//! approvals by owner and operator). Sortedness makes keys unique and gives
//! every listing its ascending iteration order.

use vstd::prelude::*;

use crate::ord::{lemma_lex_asymmetric, lemma_lex_connected, lemma_lex_irreflexive,
    lemma_lex_transitive, lex_lt, str_eq, str_lt};

verus! {

pub struct SEntry<V> {
    pub key: String,
    pub val: V,
}

/// A map from strings to `V`, as a vector of entries strictly sorted by key.
pub struct StrMap<V> {
    pub entries: Vec<SEntry<V>>,
}

impl<V> StrMap<V> {
    /// The keys, in storage order.
    pub open spec fn key_seq(self) -> Seq<Seq<char>> {
        self.entries@.map_values(|e: SEntry<V>| e.key@)
    }

    /// Well-formed: keys strictly ascending, hence unique.
    pub open spec fn wf(self) -> bool {
        forall|i: int, j: int|
            0 <= i < j < self.entries.len() ==> lex_lt(self.key_seq()[i], self.key_seq()[j])
    }

    pub open spec fn contains_key(self, k: Seq<char>) -> bool {
        exists|i: int| 0 <= i < self.entries.len() && self.key_seq()[i] == k
    }

    pub open spec fn index_of(self, k: Seq<char>) -> int {
        choose|i: int| 0 <= i < self.entries.len() && self.key_seq()[i] == k
    }

    /// The value bound to `k`, if any.
    pub open spec fn spec_get(self, k: Seq<char>) -> Option<V> {
        if self.contains_key(k) {
            Option::Some(self.entries@[self.index_of(k)].val)
        } else {
            Option::None
        }
    }

    /// In a well-formed table the entry at index `i` is the only one with its
    /// key.
    pub proof fn lemma_at_index(self, i: int)
        requires
            self.wf(),
            0 <= i < self.entries.len(),
        ensures
            self.contains_key(self.key_seq()[i]),
            self.index_of(self.key_seq()[i]) == i,
            self.spec_get(self.key_seq()[i]) == Option::Some(self.entries@[i].val),
    {
        let k = self.key_seq()[i];
        assert(self.contains_key(k));
        let j = self.index_of(k);
        if j != i {
            if j < i {
                lemma_lex_irreflexive(k);
            } else {
                lemma_lex_irreflexive(k);
            }
        }
    }

    pub fn new() -> (r: Self)
        ensures
            r.wf(),
            forall|k: Seq<char>| !r.contains_key(k),
            r.entries@.len() == 0,
    {
        StrMap { entries: Vec::new() }
    }

    /// Looks the key up by linear scan.
    pub fn get(&self, k: &str) -> (r: Option<&V>)
        requires
            self.wf(),
        ensures
            match r {
                Option::Some(v) => self.spec_get(k@) == Option::Some(*v),
                Option::None => self.spec_get(k@) is None,
            },
    {
        let n = self.entries.len();
        let mut i: usize = 0;
        while i < n
            invariant
                self.wf(),
                i <= n,
                n == self.entries.len(),
                forall|j: int| 0 <= j < i ==> self.key_seq()[j] != k@,
            decreases n - i,
        {
            if str_eq(self.entries[i].key.as_str(), k) {
                proof {
                    self.lemma_at_index(i as int);
                }
                return Option::Some(&self.entries[i].val);
            }
            i = i + 1;
        }
        proof {
            assert(!self.contains_key(k@));
        }
        Option::None
    }

    /// The first index whose key is not below `k`; all keys before it are
    /// strictly below `k`.
    fn position(&self, k: &str) -> (i: usize)
        requires
            self.wf(),
        ensures
            i <= self.entries.len(),
            forall|j: int| 0 <= j < i ==> lex_lt(self.key_seq()[j], k@),
            i < self.entries.len() ==> !lex_lt(self.key_seq()[i as int], k@),
    {
        let n = self.entries.len();
        let mut i: usize = 0;
        while i < n
            invariant
                self.wf(),
                i <= n,
                n == self.entries.len(),
                forall|j: int| 0 <= j < i ==> lex_lt(self.key_seq()[j], k@),
            decreases n - i,
        {
            if !str_lt(self.entries[i].key.as_str(), k) {
                return i;
            }
            i = i + 1;
        }
        i
    }

    /// Binds `k` to `v`, overwriting any previous binding.
    pub fn insert(&mut self, k: String, v: V)
        requires
            old(self).wf(),
        ensures
            final(self).wf(),
            final(self).spec_get(k@) == Option::Some(v),
            forall|k2: Seq<char>|
                k2 != k@ ==> final(self).spec_get(k2) == old(self).spec_get(k2),
            old(self).contains_key(k@) ==> final(self).entries@.len() == old(
                self,
            ).entries@.len(),
            !old(self).contains_key(k@) ==> final(self).entries@.len() == old(
                self,
            ).entries@.len() + 1,
    {
        let i = self.position(k.as_str());
        let ghost oldm = *self;
        if i < self.entries.len() && str_eq(self.entries[i].key.as_str(), k.as_str()) {
            self.entries.remove(i);
            self.entries.insert(i, SEntry { key: k, val: v });
            proof {
                lemma_replace_effect(oldm, *self, i as int);
            }
        } else {
            proof {
                if i < oldm.entries.len() {
                    lemma_lex_connected(oldm.key_seq()[i as int], k@);
                }
                assert(!oldm.contains_key(k@)) by {
                    if oldm.contains_key(k@) {
                        let j = oldm.index_of(k@);
                        lemma_lex_irreflexive(k@);
                        if j >= i && i < oldm.entries.len() {
                            if j > i {
                                lemma_lex_transitive(k@, oldm.key_seq()[i as int],
                                    oldm.key_seq()[j]);
                            }
                        }
                    }
                }
            }
            self.entries.insert(i, SEntry { key: k, val: v });
            proof {
                lemma_insert_effect(oldm, *self, i as int);
            }
        }
    }
}

/// Strict lexicographic order on key pairs: by first component, then by
/// second.
pub open spec fn pair_lt(a: (Seq<char>, Seq<char>), b: (Seq<char>, Seq<char>)) -> bool {
    lex_lt(a.0, b.0) || (a.0 == b.0 && lex_lt(a.1, b.1))
}

pub proof fn lemma_pair_irreflexive(a: (Seq<char>, Seq<char>))
    ensures
        !pair_lt(a, a),
{
    lemma_lex_irreflexive(a.0);
    lemma_lex_irreflexive(a.1);
}

pub proof fn lemma_pair_connected(a: (Seq<char>, Seq<char>), b: (Seq<char>, Seq<char>))
    ensures
        pair_lt(a, b) || pair_lt(b, a) || a == b,
{
    lemma_lex_connected(a.0, b.0);
    lemma_lex_connected(a.1, b.1);
}

pub proof fn lemma_pair_transitive(
    a: (Seq<char>, Seq<char>),
    b: (Seq<char>, Seq<char>),
    c: (Seq<char>, Seq<char>),
)
    ensures
        pair_lt(a, b) && pair_lt(b, c) ==> pair_lt(a, c),
{
    lemma_lex_transitive(a.0, b.0, c.0);
    lemma_lex_transitive(a.1, b.1, c.1);
    if pair_lt(a, b) && pair_lt(b, c) {
        if lex_lt(a.0, b.0) && b.0 == c.0 {
            assert(lex_lt(a.0, c.0));
        }
    }
}

pub proof fn lemma_pair_asymmetric(a: (Seq<char>, Seq<char>), b: (Seq<char>, Seq<char>))
    ensures
        pair_lt(a, b) ==> !pair_lt(b, a) && a != b,
{
    lemma_lex_asymmetric(a.0, b.0);
    lemma_lex_asymmetric(a.1, b.1);
}

pub struct PEntry<V> {
    pub k1: String,
    pub k2: String,
    pub val: V,
}

/// A map from pairs of strings to `V`, as a vector of entries strictly
/// sorted by key pair.
pub struct PairMap<V> {
    pub entries: Vec<PEntry<V>>,
}

impl<V> PairMap<V> {
    /// The key pairs, in storage order.
    pub open spec fn key_seq(self) -> Seq<(Seq<char>, Seq<char>)> {
        self.entries@.map_values(|e: PEntry<V>| (e.k1@, e.k2@))
    }

    /// Well-formed: key pairs strictly ascending, hence unique.
    pub open spec fn wf(self) -> bool {
        forall|i: int, j: int|
            0 <= i < j < self.entries.len() ==> pair_lt(self.key_seq()[i], self.key_seq()[j])
    }

    pub open spec fn contains_key(self, k: (Seq<char>, Seq<char>)) -> bool {
        exists|i: int| 0 <= i < self.entries.len() && self.key_seq()[i] == k
    }

    pub open spec fn index_of(self, k: (Seq<char>, Seq<char>)) -> int {
        choose|i: int| 0 <= i < self.entries.len() && self.key_seq()[i] == k
    }

    /// The value bound to `k`, if any.
    pub open spec fn spec_get(self, k: (Seq<char>, Seq<char>)) -> Option<V> {
        if self.contains_key(k) {
            Option::Some(self.entries@[self.index_of(k)].val)
        } else {
            Option::None
        }
    }

    /// In a well-formed table the entry at index `i` is the only one with its
    /// key pair.
    pub proof fn lemma_at_index(self, i: int)
        requires
            self.wf(),
            0 <= i < self.entries.len(),
        ensures
            self.contains_key(self.key_seq()[i]),
            self.index_of(self.key_seq()[i]) == i,
            self.spec_get(self.key_seq()[i]) == Option::Some(self.entries@[i].val),
    {
        let k = self.key_seq()[i];
        assert(self.contains_key(k));
        let j = self.index_of(k);
        if j != i {
            lemma_pair_irreflexive(k);
        }
    }

    pub fn new() -> (r: Self)
        ensures
            r.wf(),
            forall|k: (Seq<char>, Seq<char>)| !r.contains_key(k),
            r.entries@.len() == 0,
    {
        PairMap { entries: Vec::new() }
    }

    /// Looks the key pair up by linear scan.
    pub fn get(&self, k1: &str, k2: &str) -> (r: Option<&V>)
        requires
            self.wf(),
        ensures
            match r {
                Option::Some(v) => self.spec_get((k1@, k2@)) == Option::Some(*v),
                Option::None => self.spec_get((k1@, k2@)) is None,
            },
    {
        let n = self.entries.len();
        let mut i: usize = 0;
        while i < n
            invariant
                self.wf(),
                i <= n,
                n == self.entries.len(),
                forall|j: int| 0 <= j < i ==> self.key_seq()[j] != (k1@, k2@),
            decreases n - i,
        {
            if str_eq(self.entries[i].k1.as_str(), k1) && str_eq(self.entries[i].k2.as_str(), k2) {
                proof {
                    self.lemma_at_index(i as int);
                }
                return Option::Some(&self.entries[i].val);
            }
            i = i + 1;
        }
        proof {
            assert(!self.contains_key((k1@, k2@)));
        }
        Option::None
    }

    /// The first index whose key pair is not below `(k1, k2)`; all earlier
    /// key pairs are strictly below it.
    fn position(&self, k1: &str, k2: &str) -> (i: usize)
        requires
            self.wf(),
        ensures
            i <= self.entries.len(),
            forall|j: int| 0 <= j < i ==> pair_lt(self.key_seq()[j], (k1@, k2@)),
            i < self.entries.len() ==> !pair_lt(self.key_seq()[i as int], (k1@, k2@)),
    {
        let n = self.entries.len();
        let mut i: usize = 0;
        while i < n
            invariant
                self.wf(),
                i <= n,
                n == self.entries.len(),
                forall|j: int| 0 <= j < i ==> pair_lt(self.key_seq()[j], (k1@, k2@)),
            decreases n - i,
        {
            let e = &self.entries[i];
            let below = if str_lt(e.k1.as_str(), k1) {
                true
            } else if str_eq(e.k1.as_str(), k1) {
                str_lt(e.k2.as_str(), k2)
            } else {
                false
            };
            if !below {
                return i;
            }
            i = i + 1;
        }
        i
    }

    /// Binds `(k1, k2)` to `v`, overwriting any previous binding. The
    /// seq-level clauses say exactly how the entry vector changed, so that
    /// callers can track sums over it.
    pub fn insert(&mut self, k1: String, k2: String, v: V)
        requires
            old(self).wf(),
        ensures
            final(self).wf(),
            final(self).spec_get((k1@, k2@)) == Option::Some(v),
            forall|k: (Seq<char>, Seq<char>)|
                k != (k1@, k2@) ==> final(self).spec_get(k) == old(self).spec_get(k),
            old(self).contains_key((k1@, k2@)) ==> exists|i: int|
                0 <= i < old(self).entries@.len() && old(self).key_seq()[i] == (k1@, k2@)
                    && final(self).entries@ == old(self).entries@.update(
                    i,
                    (PEntry { k1: k1, k2: k2, val: v }),
                ),
            !old(self).contains_key((k1@, k2@)) ==> exists|i: int|
                0 <= i <= old(self).entries@.len() && final(self).entries@ == old(
                    self,
                ).entries@.insert(i, (PEntry { k1: k1, k2: k2, val: v })),
    {
        let i = self.position(k1.as_str(), k2.as_str());
        let ghost oldm = *self;
        let ghost gi = i as int;
        if i < self.entries.len() && str_eq(self.entries[i].k1.as_str(), k1.as_str()) && str_eq(
            self.entries[i].k2.as_str(),
            k2.as_str(),
        ) {
            self.entries.remove(i);
            self.entries.insert(i, PEntry { k1, k2, val: v });
            proof {
                assert(self.entries@ =~= oldm.entries@.update(gi, self.entries@[gi]));
                lemma_pair_replace_effect(oldm, *self, gi);
                oldm.lemma_at_index(gi);
            }
        } else {
            proof {
                if gi < oldm.entries.len() {
                    lemma_pair_connected(oldm.key_seq()[gi], (k1@, k2@));
                }
                assert(!oldm.contains_key((k1@, k2@))) by {
                    if oldm.contains_key((k1@, k2@)) {
                        let j = oldm.index_of((k1@, k2@));
                        lemma_pair_irreflexive((k1@, k2@));
                        if j > gi && gi < oldm.entries.len() {
                            lemma_pair_transitive(
                                (k1@, k2@),
                                oldm.key_seq()[gi],
                                oldm.key_seq()[j],
                            );
                        }
                    }
                }
            }
            self.entries.insert(i, PEntry { k1, k2, val: v });
            proof {
                lemma_pair_insert_effect(oldm, *self, gi);
            }
        }
    }

    /// Removes the binding of `(k1, k2)` if present; removing an absent key
    /// is a no-op.
    pub fn remove(&mut self, k1: &str, k2: &str)
        requires
            old(self).wf(),
        ensures
            final(self).wf(),
            final(self).spec_get((k1@, k2@)) is None,
            forall|k: (Seq<char>, Seq<char>)|
                k != (k1@, k2@) ==> final(self).spec_get(k) == old(self).spec_get(k),
            old(self).contains_key((k1@, k2@)) ==> exists|i: int|
                0 <= i < old(self).entries@.len() && old(self).key_seq()[i] == (k1@, k2@)
                    && final(self).entries@ == old(self).entries@.remove(i),
            !old(self).contains_key((k1@, k2@)) ==> final(self).entries@ == old(self).entries@,
    {
        let n = self.entries.len();
        let mut i: usize = 0;
        while i < n
            invariant
                *self == *old(self),
                self.wf(),
                i <= n,
                n == self.entries.len(),
                forall|j: int| 0 <= j < i ==> self.key_seq()[j] != (k1@, k2@),
            decreases n - i,
        {
            if str_eq(self.entries[i].k1.as_str(), k1) && str_eq(self.entries[i].k2.as_str(), k2) {
                let ghost oldm = *self;
                let ghost gi = i as int;
                proof {
                    oldm.lemma_at_index(gi);
                }
                self.entries.remove(i);
                proof {
                    lemma_pair_remove_effect(oldm, *self, gi);
                }
                return ;
            }
            i = i + 1;
        }
        proof {
            assert(!self.contains_key((k1@, k2@)));
        }
    }
}

/// After replacing the entry at `i` by one with the same key pair, the table
/// is still well formed and only that key pair's value changed.
proof fn lemma_pair_replace_effect<V>(m0: PairMap<V>, m1: PairMap<V>, i: int)
    requires
        m0.wf(),
        0 <= i < m0.entries.len(),
        m1.entries@ =~= m0.entries@.update(i, m1.entries@[i]),
        m1.key_seq()[i] == m0.key_seq()[i],
    ensures
        m1.wf(),
        m1.spec_get(m0.key_seq()[i]) == Option::Some(m1.entries@[i].val),
        forall|k: (Seq<char>, Seq<char>)|
            k != m0.key_seq()[i] ==> m1.spec_get(k) == m0.spec_get(k),
{
    assert(m1.key_seq() =~= m0.key_seq());
    m1.lemma_at_index(i);
    assert forall|k: (Seq<char>, Seq<char>)| k != m0.key_seq()[i] implies m1.spec_get(k)
        == m0.spec_get(k) by {
        if m0.contains_key(k) {
            let j = m0.index_of(k);
            m0.lemma_at_index(j);
            m1.lemma_at_index(j);
        } else {
            assert(!m1.contains_key(k));
        }
    }
}

/// After inserting a fresh entry at its sorted position `i`, the table is
/// still well formed, the new key pair is bound, and no other changed.
proof fn lemma_pair_insert_effect<V>(m0: PairMap<V>, m1: PairMap<V>, i: int)
    requires
        m0.wf(),
        0 <= i <= m0.entries.len(),
        m1.entries@ =~= m0.entries@.insert(i, m1.entries@[i]),
        forall|j: int| 0 <= j < i ==> pair_lt(m0.key_seq()[j], m1.key_seq()[i]),
        i < m0.entries.len() ==> pair_lt(m1.key_seq()[i], m0.key_seq()[i]),
    ensures
        m1.wf(),
        m1.spec_get(m1.key_seq()[i]) == Option::Some(m1.entries@[i].val),
        forall|k: (Seq<char>, Seq<char>)|
            k != m1.key_seq()[i] ==> m1.spec_get(k) == m0.spec_get(k),
{
    let k = m1.key_seq()[i];
    assert(forall|j: int| 0 <= j < i ==> m1.key_seq()[j] == m0.key_seq()[j]);
    assert(forall|j: int|
        i < j < m1.entries.len() ==> m1.key_seq()[j] == m0.key_seq()[j - 1]);
    assert forall|p: int, q: int|
        0 <= p < q < m1.entries.len() implies pair_lt(m1.key_seq()[p], m1.key_seq()[q]) by {
        if p == i {
            if i < m0.entries.len() && q > i {
                lemma_pair_transitive(k, m0.key_seq()[i], m0.key_seq()[q - 1]);
            }
        } else if q == i {
        } else if p < i && i < q {
            assert(pair_lt(m0.key_seq()[p], k));
            if i < m0.entries.len() {
                lemma_pair_transitive(k, m0.key_seq()[i], m0.key_seq()[q - 1]);
                lemma_pair_transitive(m0.key_seq()[p], k, m1.key_seq()[q]);
            }
        }
    }
    m1.lemma_at_index(i);
    assert forall|k2: (Seq<char>, Seq<char>)| k2 != k implies m1.spec_get(k2) == m0.spec_get(
        k2,
    ) by {
        if m0.contains_key(k2) {
            let j = m0.index_of(k2);
            m0.lemma_at_index(j);
            if j < i {
                m1.lemma_at_index(j);
            } else {
                m1.lemma_at_index(j + 1);
            }
        } else {
            if m1.contains_key(k2) {
                let j = m1.index_of(k2);
                if j < i {
                    assert(m0.key_seq()[j] == k2);
                } else if j > i {
                    assert(m0.key_seq()[j - 1] == k2);
                }
            }
        }
    }
}

/// After removing the entry at `i`, the table is still well formed, its key
/// pair is unbound, and no other changed.
proof fn lemma_pair_remove_effect<V>(m0: PairMap<V>, m1: PairMap<V>, i: int)
    requires
        m0.wf(),
        0 <= i < m0.entries.len(),
        m1.entries@ =~= m0.entries@.remove(i),
    ensures
        m1.wf(),
        !m1.contains_key(m0.key_seq()[i]),
        forall|k: (Seq<char>, Seq<char>)|
            k != m0.key_seq()[i] ==> m1.spec_get(k) == m0.spec_get(k),
{
    let k = m0.key_seq()[i];
    assert(forall|j: int| 0 <= j < i ==> m1.key_seq()[j] == m0.key_seq()[j]);
    assert(forall|j: int|
        i <= j < m1.entries.len() ==> m1.key_seq()[j] == m0.key_seq()[j + 1]);
    assert(!m1.contains_key(k)) by {
        if m1.contains_key(k) {
            let j = m1.index_of(k);
            lemma_pair_irreflexive(k);
            if j < i {
                assert(pair_lt(m0.key_seq()[j], k));
            } else {
                assert(pair_lt(k, m0.key_seq()[j + 1]));
            }
        }
    }
    assert forall|k2: (Seq<char>, Seq<char>)| k2 != k implies m1.spec_get(k2) == m0.spec_get(
        k2,
    ) by {
        if m0.contains_key(k2) {
            let j = m0.index_of(k2);
            m0.lemma_at_index(j);
            if j < i {
                m1.lemma_at_index(j);
            } else {
                m1.lemma_at_index(j - 1);
            }
        } else {
            if m1.contains_key(k2) {
                let j = m1.index_of(k2);
                if j < i {
                    assert(m0.key_seq()[j] == k2);
                } else {
                    assert(m0.key_seq()[j + 1] == k2);
                }
            }
        }
    }
}

/// After replacing the entry at `i` by one with the same key, the table is
/// still well formed and only that key's value changed.
proof fn lemma_replace_effect<V>(m0: StrMap<V>, m1: StrMap<V>, i: int)
    requires
        m0.wf(),
        0 <= i < m0.entries.len(),
        m1.entries@ =~= m0.entries@.remove(i).insert(i, m1.entries@[i]),
        m1.key_seq()[i] == m0.key_seq()[i],
    ensures
        m1.wf(),
        m1.spec_get(m0.key_seq()[i]) == Option::Some(m1.entries@[i].val),
        forall|k2: Seq<char>|
            k2 != m0.key_seq()[i] ==> m1.spec_get(k2) == m0.spec_get(k2),
{
    assert(m1.key_seq() =~= m0.key_seq());
    m1.lemma_at_index(i);
    assert forall|k2: Seq<char>| k2 != m0.key_seq()[i] implies m1.spec_get(k2) == m0.spec_get(
        k2,
    ) by {
        if m0.contains_key(k2) {
            let j = m0.index_of(k2);
            m0.lemma_at_index(j);
            m1.lemma_at_index(j);
        } else {
            assert(!m1.contains_key(k2));
        }
    }
}

/// After inserting a fresh entry at its sorted position `i`, the table is
/// still well formed, the new key is bound, and no other key changed.
proof fn lemma_insert_effect<V>(m0: StrMap<V>, m1: StrMap<V>, i: int)
    requires
        m0.wf(),
        0 <= i <= m0.entries.len(),
        m1.entries@ =~= m0.entries@.insert(i, m1.entries@[i]),
        forall|j: int| 0 <= j < i ==> lex_lt(m0.key_seq()[j], m1.key_seq()[i]),
        i < m0.entries.len() ==> lex_lt(m1.key_seq()[i], m0.key_seq()[i]),
    ensures
        m1.wf(),
        m1.spec_get(m1.key_seq()[i]) == Option::Some(m1.entries@[i].val),
        forall|k2: Seq<char>|
            k2 != m1.key_seq()[i] ==> m1.spec_get(k2) == m0.spec_get(k2),
{
    let k = m1.key_seq()[i];
    assert(forall|j: int| 0 <= j < i ==> m1.key_seq()[j] == m0.key_seq()[j]);
    assert(forall|j: int|
        i < j < m1.entries.len() ==> m1.key_seq()[j] == m0.key_seq()[j - 1]);
    assert forall|p: int, q: int|
        0 <= p < q < m1.entries.len() implies lex_lt(m1.key_seq()[p], m1.key_seq()[q]) by {
        if p == i {
            if i < m0.entries.len() {
                lemma_lex_transitive(k, m0.key_seq()[i], m0.key_seq()[q - 1]);
            }
        } else if q == i {
        } else if p < i && i < q {
            assert(lex_lt(m0.key_seq()[p], k));
            if i < m0.entries.len() {
                lemma_lex_transitive(k, m0.key_seq()[i], m0.key_seq()[q - 1]);
                lemma_lex_transitive(m0.key_seq()[p], k, m1.key_seq()[q]);
            }
        }
    }
    m1.lemma_at_index(i);
    assert forall|k2: Seq<char>| k2 != k implies m1.spec_get(k2) == m0.spec_get(k2) by {
        if m0.contains_key(k2) {
            let j = m0.index_of(k2);
            m0.lemma_at_index(j);
            if j < i {
                m1.lemma_at_index(j);
            } else {
                m1.lemma_at_index(j + 1);
            }
        } else {
            if m1.contains_key(k2) {
                let j = m1.index_of(k2);
                if j < i {
                    assert(m0.key_seq()[j] == k2);
                } else if j > i {
                    assert(m0.key_seq()[j - 1] == k2);
                }
            }
        }
    }
}

} // verus!
