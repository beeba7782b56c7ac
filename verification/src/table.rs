//! An ordered keyed store: an association list over string keys, kept sorted
//! by code-point order.  It backs the stake ledger, the membership map, its
//! histories, and the claims ledger, and its order is what pagination walks.

use vstd::prelude::*;

verus! {

/// Code-point lexicographic order on key sequences: the order in which
/// keys are stored and listed.
pub open spec fn key_lt(a: Seq<char>, b: Seq<char>) -> bool
    decreases a.len(),
{
    if b.len() == 0 {
        false
    } else if a.len() == 0 {
        true
    } else if (a[0] as u32) < (b[0] as u32) {
        true
    } else if (a[0] as u32) > (b[0] as u32) {
        false
    } else {
        key_lt(a.skip(1), b.skip(1))
    }
}

pub proof fn lemma_key_lt_irrefl(a: Seq<char>)
    ensures
        !key_lt(a, a),
    decreases a.len(),
{
    if a.len() > 0 {
        lemma_key_lt_irrefl(a.skip(1));
    }
}

pub proof fn lemma_key_lt_total(a: Seq<char>, b: Seq<char>)
    ensures
        key_lt(a, b) || key_lt(b, a) || a == b,
    decreases a.len(),
{
    if b.len() == 0 && a.len() == 0 {
        assert(a =~= b);
    } else if a.len() > 0 && b.len() > 0 {
        if (a[0] as u32) == (b[0] as u32) {
            lemma_key_lt_total(a.skip(1), b.skip(1));
            if !key_lt(a, b) && !key_lt(b, a) {
                assert(a.skip(1) == b.skip(1));
                vstd::utf8::char_u32_cast(a[0], a[0] as u32);
                vstd::utf8::char_u32_cast(b[0], b[0] as u32);
                assert(a[0] == b[0]);
                assert(a =~= b) by {
                    assert(forall|i: int|
                        1 <= i < a.len() ==> a[i] == a.skip(1)[i - 1] && b[i] == b.skip(1)[i - 1]);
                }
            }
        }
    }
}

pub proof fn lemma_key_lt_asym(a: Seq<char>, b: Seq<char>)
    requires
        key_lt(a, b),
    ensures
        !key_lt(b, a),
    decreases a.len(),
{
    if a.len() > 0 && b.len() > 0 && (a[0] as u32) == (b[0] as u32) {
        lemma_key_lt_asym(a.skip(1), b.skip(1));
    }
}

pub proof fn lemma_key_lt_trans(a: Seq<char>, b: Seq<char>, c: Seq<char>)
    requires
        key_lt(a, b),
        key_lt(b, c),
    ensures
        key_lt(a, c),
    decreases a.len(),
{
    if a.len() > 0 && b.len() > 0 && c.len() > 0 {
        if (a[0] as u32) == (b[0] as u32) && (b[0] as u32) == (c[0] as u32) {
            lemma_key_lt_trans(a.skip(1), b.skip(1), c.skip(1));
        }
    }
}

/// `key_lt` is unaffected by dropping an equal prefix of both sequences.
proof fn lemma_key_lt_from_prefix(a: Seq<char>, b: Seq<char>, i: int)
    requires
        0 <= i < a.len(),
        i < b.len(),
        forall|j: int| 0 <= j < i ==> a[j] == b[j],
        (a[i] as u32) < (b[i] as u32),
    ensures
        key_lt(a, b),
    decreases i,
{
    if i == 0 {
    } else {
        lemma_key_lt_from_prefix(a.skip(1), b.skip(1), i - 1);
    }
}

proof fn lemma_key_lt_from_prefix_len(a: Seq<char>, b: Seq<char>)
    requires
        a.len() < b.len(),
        forall|j: int| 0 <= j < a.len() ==> a[j] == b[j],
    ensures
        key_lt(a, b),
    decreases a.len(),
{
    if a.len() > 0 {
        lemma_key_lt_from_prefix_len(a.skip(1), b.skip(1));
    }
}

/// The outcome of comparing two keys.
#[derive(Clone, Copy, Debug, PartialEq, Eq, Structural)]
pub enum KeyCmp {
    Lt,
    Eq,
    Gt,
}

/// Compares two keys in code-point lexicographic order.
pub fn key_cmp(a: &str, b: &str) -> (r: KeyCmp)
    ensures
        r == KeyCmp::Lt ==> key_lt(a@, b@),
        r == KeyCmp::Gt ==> key_lt(b@, a@),
        r == KeyCmp::Eq ==> a@ == b@,
{
    let alen = a.unicode_len();
    let blen = b.unicode_len();
    let mut i: usize = 0;
    while i < alen && i < blen
        invariant
            i <= alen,
            i <= blen,
            alen == a@.len(),
            blen == b@.len(),
            forall|j: int| 0 <= j < i ==> a@[j] == b@[j],
        decreases alen - i,
    {
        let ca = a.get_char(i);
        let cb = b.get_char(i);
        if (ca as u32) < (cb as u32) {
            proof {
                lemma_key_lt_from_prefix(a@, b@, i as int);
            }
            return KeyCmp::Lt;
        }
        if (ca as u32) > (cb as u32) {
            proof {
                lemma_key_lt_from_prefix(b@, a@, i as int);
            }
            return KeyCmp::Gt;
        }
        proof {
            assert(ca == cb);
        }
        i = i + 1;
    }
    if alen < blen {
        proof {
            lemma_key_lt_from_prefix_len(a@, b@);
        }
        KeyCmp::Lt
    } else if blen < alen {
        proof {
            lemma_key_lt_from_prefix_len(b@, a@);
        }
        KeyCmp::Gt
    } else {
        proof {
            assert(a@ =~= b@);
        }
        KeyCmp::Eq
    }
}

/// Whether two keys are the same sequence of characters.
pub fn str_eq(a: &str, b: &str) -> (r: bool)
    ensures
        r == (a@ == b@),
{
    match key_cmp(a, b) {
        KeyCmp::Eq => true,
        _ => {
            proof {
                lemma_key_lt_irrefl(a@);
                lemma_key_lt_irrefl(b@);
            }
            false
        },
    }
}

/// One key together with its stored value.
pub struct TEntry<V> {
    pub key: String,
    pub val: V,
}

/// Whether the entries are strictly sorted by key: this also makes every key
/// occur at most once.
pub open spec fn tbl_sorted<V>(s: Seq<TEntry<V>>) -> bool {
    forall|i: int, j: int| 0 <= i < j < s.len() ==> #[trigger] key_lt(s[i].key@, s[j].key@)
}

/// The value stored under `k`: the first entry whose key is `k`, if any.
pub open spec fn tbl_get<V>(s: Seq<TEntry<V>>, k: Seq<char>) -> Option<V>
    decreases s.len(),
{
    if s.len() == 0 {
        None
    } else if s[0].key@ == k {
        Some(s[0].val)
    } else {
        tbl_get(s.skip(1), k)
    }
}

/// Looking a key up skips over entries with other keys.
pub proof fn lemma_tbl_get_skip<V>(s: Seq<TEntry<V>>, k: Seq<char>, i: int)
    requires
        0 <= i <= s.len(),
        forall|j: int| 0 <= j < i ==> s[j].key@ != k,
    ensures
        tbl_get(s, k) == tbl_get(s.skip(i), k),
    decreases i,
{
    if i > 0 {
        lemma_tbl_get_skip(s.skip(1), k, i - 1);
        assert(s.skip(1).skip(i - 1) =~= s.skip(i));
    } else {
        assert(s.skip(0) =~= s);
    }
}

/// A key present at position `i`, with no earlier occurrence, is what the
/// lookup returns.
pub proof fn lemma_tbl_get_found<V>(s: Seq<TEntry<V>>, k: Seq<char>, i: int)
    requires
        0 <= i < s.len(),
        s[i].key@ == k,
        forall|j: int| 0 <= j < i ==> s[j].key@ != k,
    ensures
        tbl_get(s, k) == Some(s[i].val),
{
    lemma_tbl_get_skip(s, k, i);
    assert(s.skip(i)[0] == s[i]);
}

/// A key that no entry holds is absent.
pub proof fn lemma_tbl_get_absent<V>(s: Seq<TEntry<V>>, k: Seq<char>)
    requires
        forall|j: int| 0 <= j < s.len() ==> s[j].key@ != k,
    ensures
        tbl_get(s, k) is None,
{
    lemma_tbl_get_skip(s, k, s.len() as int);
}

/// Replacing the entry at `i` by one with the same key leaves every other
/// key's lookup unchanged.
pub proof fn lemma_tbl_get_update_other<V>(s: Seq<TEntry<V>>, i: int, e: TEntry<V>, k2: Seq<char>)
    requires
        0 <= i < s.len(),
        e.key@ != k2,
        s[i].key@ != k2,
    ensures
        tbl_get(s.update(i, e), k2) == tbl_get(s, k2),
    decreases i,
{
    let t = s.update(i, e);
    if i == 0 {
        assert(t.skip(1) =~= s.skip(1));
    } else {
        assert(t[0] == s[0]);
        if s[0].key@ != k2 {
            lemma_tbl_get_update_other(s.skip(1), i - 1, e, k2);
            assert(t.skip(1) =~= s.skip(1).update(i - 1, e));
        }
    }
}

/// Inserting an entry with a different key leaves a key's lookup unchanged.
pub proof fn lemma_tbl_get_insert_other<V>(s: Seq<TEntry<V>>, i: int, e: TEntry<V>, k2: Seq<char>)
    requires
        0 <= i <= s.len(),
        e.key@ != k2,
    ensures
        tbl_get(s.insert(i, e), k2) == tbl_get(s, k2),
    decreases i,
{
    let t = s.insert(i, e);
    if i == 0 {
        assert(t[0] == e);
        assert(t.skip(1) =~= s);
    } else {
        assert(t[0] == s[0]);
        if s[0].key@ != k2 {
            lemma_tbl_get_insert_other(s.skip(1), i - 1, e, k2);
            assert(t.skip(1) =~= s.skip(1).insert(i - 1, e));
        }
    }
}

/// Removing the entry at `i` leaves every other key's lookup unchanged.
pub proof fn lemma_tbl_get_remove_other<V>(s: Seq<TEntry<V>>, i: int, k2: Seq<char>)
    requires
        0 <= i < s.len(),
        s[i].key@ != k2,
    ensures
        tbl_get(s.remove(i), k2) == tbl_get(s, k2),
    decreases i,
{
    let t = s.remove(i);
    if i == 0 {
        assert(t =~= s.skip(1));
    } else {
        assert(t[0] == s[0]);
        if s[0].key@ != k2 {
            lemma_tbl_get_remove_other(s.skip(1), i - 1, k2);
            assert(t.skip(1) =~= s.skip(1).remove(i - 1));
        }
    }
}

/// A keyed store with entries kept strictly sorted by key.
pub struct Table<V> {
    pub entries: Vec<TEntry<V>>,
}

impl<V> Table<V> {
    /// Whether the store is well formed: entries strictly sorted by key.
    pub open spec fn sorted(&self) -> bool {
        tbl_sorted(self.entries@)
    }

    /// The value stored under `k`, if any.
    pub open spec fn spec_get(&self, k: Seq<char>) -> Option<V> {
        tbl_get(self.entries@, k)
    }

    /// An empty store.
    pub fn new() -> (r: Table<V>)
        ensures
            r.sorted(),
            r.entries@.len() == 0,
            forall|k: Seq<char>| r.spec_get(k) is None,
    {
        let r = Table { entries: Vec::new() };
        proof {
            assert forall|k: Seq<char>| r.spec_get(k) is None by {
                lemma_tbl_get_absent(r.entries@, k);
            }
        }
        r
    }

    /// How many keys are stored.
    pub fn len(&self) -> (r: usize)
        ensures
            r == self.entries@.len(),
    {
        self.entries.len()
    }

    /// The key at position `i` in sorted order.
    pub fn key_at(&self, i: usize) -> (r: &String)
        requires
            i < self.entries@.len(),
        ensures
            *r == self.entries@[i as int].key,
    {
        &self.entries[i].key
    }

    /// The value at position `i` in sorted order.
    pub fn val_at(&self, i: usize) -> (r: &V)
        requires
            i < self.entries@.len(),
        ensures
            *r == self.entries@[i as int].val,
    {
        &self.entries[i].val
    }

    /// Looks the key up.
    pub fn get<'a>(&'a self, k: &str) -> (r: Option<&'a V>)
        ensures
            match r {
                Some(v) => self.spec_get(k@) == Some(*v),
                None => self.spec_get(k@) is None,
            },
    {
        let n = self.entries.len();
        let mut i: usize = 0;
        while i < n
            invariant
                i <= n,
                n == self.entries@.len(),
                forall|j: int| 0 <= j < i ==> #[trigger] self.entries@[j].key@ != k@,
            decreases n - i,
        {
            match key_cmp(self.entries[i].key.as_str(), k) {
                KeyCmp::Eq => {
                    proof {
                        lemma_tbl_get_found(self.entries@, k@, i as int);
                    }
                    return Some(&self.entries[i].val);
                },
                _ => {
                    proof {
                        lemma_key_lt_total(self.entries@[i as int].key@, k@);
                        lemma_key_lt_irrefl(self.entries@[i as int].key@);
                    }
                    i = i + 1;
                },
            }
        }
        proof {
            lemma_tbl_get_absent(self.entries@, k@);
        }
        None
    }

    /// Stores `v` under `k`, replacing any previous value.
    ///
    /// Besides the lookup clauses, the contract exposes where the entry
    /// landed, so callers can reason about sums and listings.
    #[verifier::loop_isolation(false)]
    pub fn set(&mut self, k: &str, v: V)
        requires
            old(self).sorted(),
        ensures
            final(self).sorted(),
            forall|k2: Seq<char>|
                final(self).spec_get(k2) == if k2 == k@ {
                    Some(v)
                } else {
                    old(self).spec_get(k2)
                },
            match old(self).spec_get(k@) {
                Some(_) => exists|i: int|
                    {
                        &&& 0 <= i < old(self).entries@.len()
                        &&& old(self).entries@[i].key@ == k@
                        &&& final(self).entries@ =~= #[trigger] old(self).entries@.update(i, final(self).entries@[i])
                        &&& final(self).entries@[i].key@ == k@
                        &&& final(self).entries@[i].val == v
                    },
                None => exists|i: int|
                    {
                        &&& 0 <= i <= old(self).entries@.len()
                        &&& final(self).entries@ =~= #[trigger] old(self).entries@.insert(i, final(self).entries@[i])
                        &&& final(self).entries@[i].key@ == k@
                        &&& final(self).entries@[i].val == v
                    },
            },
    {
        let ghost s0 = self.entries@;
        let n = self.entries.len();
        let mut i: usize = 0;
        while i < n
            invariant
                i <= n,
                n == self.entries@.len(),
                self.entries@ == s0,
                tbl_sorted(s0),
                forall|j: int| 0 <= j < i ==> #[trigger] key_lt(s0[j].key@, k@),
            decreases n - i,
        {
            match key_cmp(self.entries[i].key.as_str(), k) {
                KeyCmp::Lt => {
                    i = i + 1;
                },
                KeyCmp::Eq => {
                    proof {
                        assert forall|j: int| 0 <= j < i implies #[trigger] s0[j].key@ != k@ by {
                            lemma_key_lt_irrefl(s0[j].key@);
                        }
                        lemma_tbl_get_found(s0, k@, i as int);
                    }
                    let e = self.entries.remove(i);
                    self.entries.insert(i, TEntry { key: e.key, val: v });
                    proof {
                        let t = self.entries@;
                        assert(t =~= s0.update(i as int, t[i as int]));
                        assert(exists|i2: int|
                            {
                                &&& 0 <= i2 < s0.len()
                                &&& s0[i2].key@ == k@
                                &&& t =~= #[trigger] s0.update(i2, t[i2])
                                &&& t[i2].key@ == k@
                                &&& t[i2].val == v
                            });
                        assert forall|i2: int, j2: int|
                            0 <= i2 < j2 < t.len() implies #[trigger] key_lt(
                            t[i2].key@,
                            t[j2].key@,
                        ) by {
                            assert(key_lt(s0[i2].key@, s0[j2].key@));
                        }
                        assert forall|k2: Seq<char>|
                            #[trigger] tbl_get(t, k2) == if k2 == k@ {
                                Some(v)
                            } else {
                                tbl_get(s0, k2)
                            } by {
                            if k2 == k@ {
                                lemma_tbl_get_found(t, k@, i as int);
                            } else {
                                lemma_tbl_get_update_other(s0, i as int, t[i as int], k2);
                            }
                        }
                    }
                    return ;
                },
                KeyCmp::Gt => {
                    self.entries.insert(i, TEntry { key: k.to_owned(), val: v });
                    proof {
                        let t = self.entries@;
                        assert(t =~= s0.insert(i as int, t[i as int]));
                        self.lemma_set_inserted(s0, k@, v, i as int);
                        assert(exists|i2: int|
                            {
                                &&& 0 <= i2 <= s0.len()
                                &&& t =~= #[trigger] s0.insert(i2, t[i2])
                                &&& t[i2].key@ == k@
                                &&& t[i2].val == v
                            });
                    }
                    return ;
                },
            }
        }
        self.entries.push(TEntry { key: k.to_owned(), val: v });
        proof {
            let t = self.entries@;
            assert(t =~= s0.insert(n as int, t[n as int]));
            self.lemma_set_inserted(s0, k@, v, n as int);
            assert(exists|i2: int|
                {
                    &&& 0 <= i2 <= s0.len()
                    &&& t =~= #[trigger] s0.insert(i2, t[i2])
                    &&& t[i2].key@ == k@
                    &&& t[i2].val == v
                });
        }
    }

    /// After inserting a fresh key at its sorted position, the store is
    /// sorted again and lookups change only for that key.
    proof fn lemma_set_inserted(&self, s0: Seq<TEntry<V>>, k: Seq<char>, v: V, i: int)
        requires
            tbl_sorted(s0),
            0 <= i <= s0.len(),
            forall|j: int| 0 <= j < i ==> #[trigger] key_lt(s0[j].key@, k),
            i < s0.len() ==> key_lt(k, s0[i].key@),
            self.entries@ =~= s0.insert(i, self.entries@[i]),
            self.entries@[i].key@ == k,
            self.entries@[i].val == v,
        ensures
            self.sorted(),
            forall|k2: Seq<char>|
                self.spec_get(k2) == if k2 == k {
                    Some(v)
                } else {
                    tbl_get(s0, k2)
                },
            tbl_get(s0, k) is None,
    {
        let t = self.entries@;
        assert forall|j: int| 0 <= j < s0.len() implies #[trigger] s0[j].key@ != k by {
            if j < i {
                lemma_key_lt_irrefl(s0[j].key@);
            } else if j == i {
                lemma_key_lt_irrefl(k);
            } else {
                lemma_key_lt_trans(k, s0[i].key@, s0[j].key@);
                lemma_key_lt_irrefl(k);
            }
        }
        lemma_tbl_get_absent(s0, k);
        assert forall|i2: int, j2: int|
            0 <= i2 < j2 < t.len() implies #[trigger] key_lt(t[i2].key@, t[j2].key@) by {
            if i2 == i {
                // the new entry against a later old one
                assert(t[j2] == s0[j2 - 1]);
                if j2 - 1 == i {
                    assert(key_lt(k, s0[i].key@));
                } else {
                    assert(key_lt(s0[i].key@, s0[j2 - 1].key@));
                    lemma_key_lt_trans(k, s0[i].key@, s0[j2 - 1].key@);
                }
            } else if j2 == i {
                // an earlier old entry against the new one
                assert(t[i2] == s0[i2]);
                assert(key_lt(s0[i2].key@, k));
            } else if i2 < i && j2 > i {
                // two old entries that the insertion pushed apart
                assert(t[i2] == s0[i2]);
                assert(t[j2] == s0[j2 - 1]);
                assert(key_lt(s0[i2].key@, s0[j2 - 1].key@));
            } else if j2 < i {
                assert(key_lt(s0[i2].key@, s0[j2].key@));
            } else {
                assert(t[i2] == s0[i2 - 1]);
                assert(t[j2] == s0[j2 - 1]);
                assert(key_lt(s0[i2 - 1].key@, s0[j2 - 1].key@));
            }
        }
        assert forall|k2: Seq<char>|
            #[trigger] tbl_get(t, k2) == if k2 == k {
                Some(v)
            } else {
                tbl_get(s0, k2)
            } by {
            if k2 == k {
                assert forall|j: int| 0 <= j < i implies #[trigger] t[j].key@ != k by {
                    lemma_key_lt_irrefl(t[j].key@);
                }
                lemma_tbl_get_found(t, k, i);
            } else {
                lemma_tbl_get_insert_other(s0, i, t[i], k2);
            }
        }
    }

    /// Removes the value stored under `k` and returns it.
    #[verifier::loop_isolation(false)]
    pub fn remove(&mut self, k: &str) -> (r: Option<V>)
        requires
            old(self).sorted(),
        ensures
            final(self).sorted(),
            r == old(self).spec_get(k@),
            forall|k2: Seq<char>|
                final(self).spec_get(k2) == if k2 == k@ {
                    None::<V>
                } else {
                    old(self).spec_get(k2)
                },
            match r {
                Some(_) => exists|i: int|
                    {
                        &&& 0 <= i < old(self).entries@.len()
                        &&& old(self).entries@[i].key@ == k@
                        &&& final(self).entries@ =~= #[trigger] old(self).entries@.remove(i)
                    },
                None => final(self).entries@ == old(self).entries@,
            },
    {
        let ghost s0 = self.entries@;
        let n = self.entries.len();
        let mut i: usize = 0;
        while i < n
            invariant
                i <= n,
                n == self.entries@.len(),
                self.entries@ == s0,
                tbl_sorted(s0),
                forall|j: int| 0 <= j < i ==> #[trigger] key_lt(s0[j].key@, k@),
            decreases n - i,
        {
            match key_cmp(self.entries[i].key.as_str(), k) {
                KeyCmp::Lt => {
                    i = i + 1;
                },
                KeyCmp::Eq => {
                    proof {
                        assert forall|j: int| 0 <= j < i implies #[trigger] s0[j].key@ != k@ by {
                            lemma_key_lt_irrefl(s0[j].key@);
                        }
                        lemma_tbl_get_found(s0, k@, i as int);
                    }
                    let e = self.entries.remove(i);
                    proof {
                        let t = self.entries@;
                        assert(t =~= s0.remove(i as int));
                        assert forall|i2: int, j2: int|
                            0 <= i2 < j2 < t.len() implies #[trigger] key_lt(
                            t[i2].key@,
                            t[j2].key@,
                        ) by {
                            let a2 = if i2 < i {
                                i2
                            } else {
                                i2 + 1
                            };
                            let b2 = if j2 < i {
                                j2
                            } else {
                                j2 + 1
                            };
                            assert(t[i2] == s0[a2] && t[j2] == s0[b2]);
                            assert(key_lt(s0[a2].key@, s0[b2].key@));
                        }
                        assert forall|k2: Seq<char>|
                            #[trigger] tbl_get(t, k2) == if k2 == k@ {
                                None::<V>
                            } else {
                                tbl_get(s0, k2)
                            } by {
                            if k2 == k@ {
                                assert forall|j: int| 0 <= j < t.len() implies #[trigger] t[j].key@
                                    != k@ by {
                                    let a2 = if j < i {
                                        j
                                    } else {
                                        j + 1
                                    };
                                    assert(t[j] == s0[a2]);
                                    if a2 < i {
                                        lemma_key_lt_irrefl(s0[a2].key@);
                                    } else {
                                        assert(key_lt(s0[i as int].key@, s0[a2].key@));
                                        lemma_key_lt_irrefl(s0[a2].key@);
                                    }
                                }
                                lemma_tbl_get_absent(t, k@);
                            } else {
                                lemma_tbl_get_remove_other(s0, i as int, k2);
                            }
                        }
                    }
                    return Some(e.val);
                },
                KeyCmp::Gt => {
                    proof {
                        self.lemma_absent_here(s0, k@, i as int);
                    }
                    return None;
                },
            }
        }
        proof {
            assert forall|j: int| 0 <= j < s0.len() implies #[trigger] s0[j].key@ != k@ by {
                lemma_key_lt_irrefl(s0[j].key@);
            }
            lemma_tbl_get_absent(s0, k@);
        }
        None
    }

    /// If every key before `i` is below `k` and the key at `i` is above it,
    /// `k` is not in the store.
    proof fn lemma_absent_here(&self, s0: Seq<TEntry<V>>, k: Seq<char>, i: int)
        requires
            self.entries@ == s0,
            tbl_sorted(s0),
            0 <= i < s0.len(),
            forall|j: int| 0 <= j < i ==> #[trigger] key_lt(s0[j].key@, k),
            key_lt(k, s0[i].key@),
        ensures
            tbl_get(s0, k) is None,
    {
        assert forall|j: int| 0 <= j < s0.len() implies #[trigger] s0[j].key@ != k by {
            if j < i {
                lemma_key_lt_irrefl(s0[j].key@);
            } else if j == i {
                lemma_key_lt_irrefl(k);
            } else {
                lemma_key_lt_trans(k, s0[i].key@, s0[j].key@);
                lemma_key_lt_irrefl(k);
            }
        }
        lemma_tbl_get_absent(s0, k);
    }
}

/// In a sorted store, the entry at `i` is what looking its own key up returns.
pub proof fn lemma_sorted_get_at<V>(s: Seq<TEntry<V>>, i: int)
    requires
        tbl_sorted(s),
        0 <= i < s.len(),
    ensures
        tbl_get(s, s[i].key@) == Some(s[i].val),
{
    assert forall|j: int| 0 <= j < i implies #[trigger] s[j].key@ != s[i].key@ by {
        lemma_key_lt_irrefl(s[j].key@);
    }
    lemma_tbl_get_found(s, s[i].key@, i);
}

/// A present key is held by some entry.
pub proof fn lemma_tbl_get_index<V>(s: Seq<TEntry<V>>, k: Seq<char>)
    requires
        tbl_get(s, k) is Some,
    ensures
        exists|i: int|
            0 <= i < s.len() && (#[trigger] s[i].key)@ == k && tbl_get(s, k) == Some(s[i].val),
    decreases s.len(),
{
    if s[0].key@ == k {
        assert(s[0].key@ == k && tbl_get(s, k) == Some(s[0].val));
    } else {
        lemma_tbl_get_index(s.skip(1), k);
        let j = choose|j: int|
            0 <= j < s.skip(1).len() && (#[trigger] s.skip(1)[j].key)@ == k && tbl_get(s.skip(1), k)
                == Some(s.skip(1)[j].val);
        assert(s[j + 1] == s.skip(1)[j]);
        assert((s[j + 1].key)@ == k && tbl_get(s, k) == Some(s[j + 1].val));
    }
}

/// The sum of all stored `u64` values.
pub open spec fn sum_weights(s: Seq<TEntry<u64>>) -> int
    decreases s.len(),
{
    if s.len() == 0 {
        0
    } else {
        s[0].val + sum_weights(s.skip(1))
    }
}

pub proof fn lemma_sum_nonneg(s: Seq<TEntry<u64>>)
    ensures
        sum_weights(s) >= 0,
    decreases s.len(),
{
    if s.len() > 0 {
        lemma_sum_nonneg(s.skip(1));
    }
}

/// Each stored value is at most the sum of all of them.
pub proof fn lemma_sum_index_bound(s: Seq<TEntry<u64>>, i: int)
    requires
        0 <= i < s.len(),
    ensures
        s[i].val <= sum_weights(s),
    decreases i,
{
    if i == 0 {
        lemma_sum_nonneg(s.skip(1));
    } else {
        lemma_sum_index_bound(s.skip(1), i - 1);
        assert(s.skip(1)[i - 1] == s[i]);
        assert(s[0].val >= 0);
    }
}

/// Replacing the entry at `i` shifts the sum by the difference of values.
pub proof fn lemma_sum_update(s: Seq<TEntry<u64>>, i: int, e: TEntry<u64>)
    requires
        0 <= i < s.len(),
    ensures
        sum_weights(s.update(i, e)) == sum_weights(s) - s[i].val + e.val,
    decreases i,
{
    let t = s.update(i, e);
    if i == 0 {
        assert(t.skip(1) =~= s.skip(1));
    } else {
        lemma_sum_update(s.skip(1), i - 1, e);
        assert(t.skip(1) =~= s.skip(1).update(i - 1, e));
        assert(t[0] == s[0]);
    }
}

/// Inserting an entry adds its value to the sum.
pub proof fn lemma_sum_insert(s: Seq<TEntry<u64>>, i: int, e: TEntry<u64>)
    requires
        0 <= i <= s.len(),
    ensures
        sum_weights(s.insert(i, e)) == sum_weights(s) + e.val,
    decreases i,
{
    let t = s.insert(i, e);
    if i == 0 {
        assert(t[0] == e);
        assert(t.skip(1) =~= s);
    } else {
        lemma_sum_insert(s.skip(1), i - 1, e);
        assert(t.skip(1) =~= s.skip(1).insert(i - 1, e));
        assert(t[0] == s[0]);
    }
}

/// Removing the entry at `i` takes its value out of the sum.
pub proof fn lemma_sum_remove(s: Seq<TEntry<u64>>, i: int)
    requires
        0 <= i < s.len(),
    ensures
        sum_weights(s.remove(i)) == sum_weights(s) - s[i].val,
    decreases i,
{
    let t = s.remove(i);
    if i == 0 {
        assert(t =~= s.skip(1));
    } else {
        lemma_sum_remove(s.skip(1), i - 1);
        assert(t.skip(1) =~= s.skip(1).remove(i - 1));
        assert(t[0] == s[0]);
    }
}

} // verus!
