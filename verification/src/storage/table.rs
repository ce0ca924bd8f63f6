//! The table of encrypted passwords, keyed by connection alias. Keys are distinct and
//! entries keep the order in which their keys were first inserted.
use vstd::prelude::*;
use crate::text::same_text;

verus! {

/// A map from alias to encrypted password.
#[derive(Debug, PartialEq)]
pub struct PasswordTable {
    entries: Vec<(String, String)>,
}

/// The texts of the entries, in order.
pub open spec fn pair_texts(v: Seq<(String, String)>) -> Seq<(Seq<char>, Seq<char>)> {
    v.map_values(|p: (String, String)| (p.0@, p.1@))
}

/// The first position at or after `i` with key `k`.
pub open spec fn key_from(s: Seq<(Seq<char>, Seq<char>)>, k: Seq<char>, i: int) -> Option<int>
    decreases s.len() - i,
{
    if i < 0 || i >= s.len() {
        None
    } else if s[i].0 == k {
        Some(i)
    } else {
        key_from(s, k, i + 1)
    }
}

/// The value stored under `k`.
pub open spec fn lookup(s: Seq<(Seq<char>, Seq<char>)>, k: Seq<char>) -> Option<Seq<char>> {
    match key_from(s, k, 0) {
        Some(i) => Some(s[i].1),
        None => None,
    }
}

/// No key occurs twice.
pub open spec fn distinct_keys(s: Seq<(Seq<char>, Seq<char>)>) -> bool {
    forall|i: int, j: int| 0 <= i < s.len() && 0 <= j < s.len() && i != j ==> (#[trigger] s[i]).0 != (#[trigger] s[j]).0
}

proof fn lemma_key_from(s: Seq<(Seq<char>, Seq<char>)>, k: Seq<char>, i: int)
    requires
        0 <= i,
    ensures
        key_from(s, k, i) matches Some(j) ==> i <= j < s.len() && s[j].0 == k
            && forall|m: int| i <= m < j ==> (#[trigger] s[m]).0 != k,
        key_from(s, k, i) is None ==> forall|m: int| i <= m < s.len() ==> (#[trigger] s[m]).0 != k,
    decreases s.len() - i,
{
    if i < s.len() && s[i].0 != k {
        lemma_key_from(s, k, i + 1);
    }
}

/// With distinct keys, a key found at position `j` is looked up there.
proof fn lemma_lookup_at(s: Seq<(Seq<char>, Seq<char>)>, j: int)
    requires
        distinct_keys(s),
        0 <= j < s.len(),
    ensures
        key_from(s, s[j].0, 0) == Some(j),
        lookup(s, s[j].0) == Some(s[j].1),
{
    lemma_key_from(s, s[j].0, 0);
    match key_from(s, s[j].0, 0) {
        Some(m) => {
            if m != j {
                assert(s[m].0 == s[j].0);
            }
        },
        None => {},
    }
}

/// A key absent from the table has no value.
proof fn lemma_lookup_absent(s: Seq<(Seq<char>, Seq<char>)>, k: Seq<char>)
    requires
        forall|m: int| 0 <= m < s.len() ==> (#[trigger] s[m]).0 != k,
    ensures
        lookup(s, k) is None,
{
    lemma_key_from(s, k, 0);
}

impl View for PasswordTable {
    type V = Seq<(Seq<char>, Seq<char>)>;

    closed spec fn view(&self) -> Seq<(Seq<char>, Seq<char>)> {
        pair_texts(self.entries@)
    }
}

impl PasswordTable {
    #[verifier::type_invariant]
    spec fn keys_distinct(&self) -> bool {
        distinct_keys(self@)
    }

    /// An empty table.
    pub fn new() -> (r: PasswordTable)
        ensures
            r@.len() == 0,
    {
        PasswordTable { entries: Vec::new() }
    }

    /// The number of entries.
    pub fn len(&self) -> (r: usize)
        ensures
            r == self@.len(),
    {
        self.entries.len()
    }

    /// Whether the table has no entry.
    pub fn is_empty(&self) -> (r: bool)
        ensures
            r == (self@.len() == 0),
    {
        self.entries.len() == 0
    }

    fn position(&self, key: &str) -> (r: Option<usize>)
        ensures
            r matches Some(i) ==> key_from(self@, key@, 0) == Some(i as int) && i < self@.len(),
            r is None ==> key_from(self@, key@, 0) is None,
    {
        proof {
            lemma_key_from(self@, key@, 0);
        }
        let mut i: usize = 0;
        while i < self.entries.len()
            invariant
                i <= self@.len(),
                self@.len() == self.entries@.len(),
                key_from(self@, key@, 0) == key_from(self@, key@, i as int),
            decreases self@.len() - i,
        {
            if same_text(self.entries[i].0.as_str(), key) {
                return Some(i);
            }
            i = i + 1;
        }
        None
    }

    /// The value stored under `key`.
    pub fn get(&self, key: &str) -> (r: Option<&String>)
        ensures
            match lookup(self@, key@) {
                Some(v) => r matches Some(s) && s@ == v,
                None => r is None,
            },
    {
        match self.position(key) {
            Some(i) => {
                assert(self@[i as int] == (self.entries@[i as int].0@, self.entries@[i as int].1@));
                Some(&self.entries[i].1)
            },
            None => None,
        }
    }

    /// Stores `value` under `key`, replacing what was there; a new key goes last.
    pub fn insert(&mut self, key: String, value: String)
        ensures
            lookup(final(self)@, key@) == Some(value@),
            forall|k: Seq<char>| k != key@ ==> lookup(final(self)@, k) == lookup(old(self)@, k),
            lookup(old(self)@, key@) is Some ==> final(self)@.len() == old(self)@.len(),
            lookup(old(self)@, key@) is None ==> final(self)@ == old(self)@.push((key@, value@)),
    {
        proof {
            use_type_invariant(&*self);
        }
        let ghost s0 = self@;
        match self.position(key.as_str()) {
            Some(i) => {
                let ghost k = key@;
                let ghost v = value@;
                let mut entries: Vec<(String, String)> = Vec::new();
                std::mem::swap(&mut entries, &mut self.entries);
                entries.set(i, (key, value));
                assert(pair_texts(entries@) =~= s0.update(i as int, (k, v)));
                proof {
                    lemma_key_from(s0, k, 0);
                    let s1 = pair_texts(entries@);
                    assert(s1[i as int].0 == s0[i as int].0);
                    assert forall|a: int, b: int| 0 <= a < s0.len() && 0 <= b < s0.len() && a != b
                        implies (#[trigger] s1[a]).0 != (#[trigger] s1[b]).0 by {
                        assert(s1[a].0 == s0[a].0 && s1[b].0 == s0[b].0);
                    }
                }
                self.entries = entries;
                assert(self@ =~= s0.update(i as int, (k, v)));
                proof {
                    lemma_key_from(s0, k, 0);
                    assert forall|a: int, b: int| 0 <= a < self@.len() && 0 <= b < self@.len() && a != b
                        implies (#[trigger] self@[a]).0 != (#[trigger] self@[b]).0 by {
                        assert(self@[a].0 == s0[a].0 && self@[b].0 == s0[b].0);
                    }
                    lemma_lookup_at(self@, i as int);
                    assert forall|q: Seq<char>| q != k implies lookup(self@, q) == lookup(s0, q) by {
                        lemma_key_from(s0, q, 0);
                        lemma_key_from(self@, q, 0);
                        match key_from(s0, q, 0) {
                            Some(m) => {
                                lemma_lookup_at(s0, m);
                                lemma_lookup_at(self@, m);
                                assert(self@[m] == s0[m]);
                            },
                            None => {
                                lemma_lookup_absent(self@, q);
                            },
                        }
                    }
                }
            },
            None => {
                let ghost k = key@;
                let ghost v = value@;
                let mut entries: Vec<(String, String)> = Vec::new();
                std::mem::swap(&mut entries, &mut self.entries);
                entries.push((key, value));
                let ghost s1 = pair_texts(entries@);
                assert(s1 =~= s0.push((k, v)));
                proof {
                    lemma_key_from(s0, k, 0);
                    assert forall|a: int, b: int| 0 <= a < s1.len() && 0 <= b < s1.len() && a != b
                        implies (#[trigger] s1[a]).0 != (#[trigger] s1[b]).0 by {
                        if a < s0.len() && b < s0.len() {
                            assert(s1[a] == s0[a] && s1[b] == s0[b]);
                        } else if a < s0.len() {
                            assert(s1[a] == s0[a]);
                        } else {
                            assert(s1[b] == s0[b]);
                        }
                    }
                }
                self.entries = entries;
                assert(self@ =~= s0.push((k, v)));
                proof {
                    assert forall|a: int, b: int| 0 <= a < self@.len() && 0 <= b < self@.len() && a != b
                        implies (#[trigger] self@[a]).0 != (#[trigger] self@[b]).0 by {
                        if a < s0.len() && b < s0.len() {
                            assert(self@[a] == s0[a] && self@[b] == s0[b]);
                        } else if a < s0.len() {
                            assert(self@[a] == s0[a]);
                        } else {
                            assert(self@[b] == s0[b]);
                        }
                    }
                    lemma_lookup_at(self@, s0.len() as int);
                    assert forall|q: Seq<char>| q != k implies lookup(self@, q) == lookup(s0, q) by {
                        lemma_key_from(s0, q, 0);
                        match key_from(s0, q, 0) {
                            Some(m) => {
                                lemma_lookup_at(s0, m);
                                lemma_lookup_at(self@, m);
                                assert(self@[m] == s0[m]);
                            },
                            None => {
                                assert forall|m: int| 0 <= m < self@.len() implies (#[trigger] self@[m]).0 != q by {
                                    if m < s0.len() {
                                        assert(self@[m] == s0[m]);
                                    }
                                }
                                lemma_lookup_absent(self@, q);
                            },
                        }
                    }
                }
            },
        }
    }

    /// Removes the entry for `key` and returns its value.
    pub fn remove(&mut self, key: &str) -> (r: Option<String>)
        ensures
            lookup(final(self)@, key@) is None,
            forall|k: Seq<char>| k != key@ ==> lookup(final(self)@, k) == lookup(old(self)@, k),
            match lookup(old(self)@, key@) {
                Some(v) => r matches Some(s) && s@ == v,
                None => r is None && final(self)@ == old(self)@,
            },
    {
        proof {
            use_type_invariant(&*self);
        }
        let ghost s0 = self@;
        match self.position(key) {
            Some(i) => {
                let mut entries: Vec<(String, String)> = Vec::new();
                std::mem::swap(&mut entries, &mut self.entries);
                let (_, v) = entries.remove(i);
                let ghost s1 = pair_texts(entries@);
                assert(s1 =~= s0.remove(i as int));
                proof {
                    assert forall|a: int, b: int| 0 <= a < s1.len() && 0 <= b < s1.len() && a != b
                        implies (#[trigger] s1[a]).0 != (#[trigger] s1[b]).0 by {
                        let a2 = if a < i { a } else { a + 1 };
                        let b2 = if b < i { b } else { b + 1 };
                        assert(s1[a] == s0[a2] && s1[b] == s0[b2]);
                    }
                }
                self.entries = entries;
                assert(self@ =~= s0.remove(i as int));
                proof {
                    lemma_key_from(s0, key@, 0);
                    assert forall|a: int, b: int| 0 <= a < self@.len() && 0 <= b < self@.len() && a != b
                        implies (#[trigger] self@[a]).0 != (#[trigger] self@[b]).0 by {
                        let a2 = if a < i { a } else { a + 1 };
                        let b2 = if b < i { b } else { b + 1 };
                        assert(self@[a] == s0[a2] && self@[b] == s0[b2]);
                    }
                    assert forall|m: int| 0 <= m < self@.len() implies (#[trigger] self@[m]).0 != key@ by {
                        let m2 = if m < i { m } else { m + 1 };
                        assert(self@[m] == s0[m2]);
                    }
                    lemma_lookup_absent(self@, key@);
                    assert forall|q: Seq<char>| q != key@ implies lookup(self@, q) == lookup(s0, q) by {
                        lemma_key_from(s0, q, 0);
                        match key_from(s0, q, 0) {
                            Some(m) => {
                                lemma_lookup_at(s0, m);
                                let m2 = if m < i { m } else { m - 1 };
                                assert(self@[m2] == s0[m]);
                                lemma_lookup_at(self@, m2);
                            },
                            None => {
                                assert forall|m: int| 0 <= m < self@.len() implies (#[trigger] self@[m]).0 != q by {
                                    let m2 = if m < i { m } else { m + 1 };
                                    assert(self@[m] == s0[m2]);
                                }
                                lemma_lookup_absent(self@, q);
                            },
                        }
                    }
                }
                Some(v)
            },
            None => {
                proof {
                    lemma_key_from(s0, key@, 0);
                }
                None
            },
        }
    }

    /// The first entry, if any (what reading the table starts with).
    pub fn first(&self) -> (r: Option<(&String, &String)>)
        ensures
            self@.len() == 0 ==> r is None,
            self@.len() > 0 ==> (r matches Some(p) && p.0@ == self@[0].0 && p.1@ == self@[0].1),
    {
        if self.entries.len() == 0 {
            None
        } else {
            let e = &self.entries[0];
            Some((&e.0, &e.1))
        }
    }

    /// The entries, in order, as owned pairs.
    pub fn to_pairs(&self) -> (r: Vec<(String, String)>)
        ensures
            pair_texts(r@) == self@,
    {
        let mut out: Vec<(String, String)> = Vec::new();
        let mut i: usize = 0;
        while i < self.entries.len()
            invariant
                i <= self.entries@.len(),
                out@.len() == i,
                forall|k: int| 0 <= k < i ==> (#[trigger] out@[k]).0@ == self.entries@[k].0@
                    && out@[k].1@ == self.entries@[k].1@,
            decreases self.entries@.len() - i,
        {
            let e = &self.entries[i];
            out.push((e.0.clone(), e.1.clone()));
            i = i + 1;
        }
        assert(pair_texts(out@) =~= self@);
        out
    }

    /// A table holding `pairs` inserted in order (a later pair wins over an earlier one
    /// with the same key).
    pub fn from_pairs(pairs: Vec<(String, String)>) -> (r: PasswordTable)
        ensures
            forall|k: Seq<char>| #![trigger lookup(r@, k)]
                lookup(r@, k) == last_value(pair_texts(pairs@), k),
    {
        let mut t = PasswordTable::new();
        let mut rest = pairs;
        let ghost all = pair_texts(rest@);
        let mut taken: Vec<(String, String)> = Vec::new();
        proof {
            assert forall|k: Seq<char>| #![trigger lookup(t@, k)] lookup(t@, k) == last_value(Seq::<(Seq<char>, Seq<char>)>::empty(), k) by {
                lemma_lookup_absent(t@, k);
            }
        }
        let n = rest.len();
        let mut i: usize = 0;
        while i < n
            invariant
                n == all.len(),
                i <= n,
                forall|k: Seq<char>| #![trigger lookup(t@, k)] lookup(t@, k) == last_value(all.take(i as int), k),
                rest@.len() == n,
                pair_texts(rest@) == all,
            decreases n - i,
        {
            let (k, v) = (rest[i].0.clone(), rest[i].1.clone());
            let ghost kk = k@;
            let ghost vv = v@;
            let ghost before = t@;
            t.insert(k, v);
            proof {
                assert(all[i as int] == (kk, vv));
                assert(all.take(i + 1) =~= all.take(i as int).push((kk, vv)));
                assert forall|q: Seq<char>| #![trigger lookup(t@, q)] lookup(t@, q) == last_value(all.take(i + 1), q) by {
                    assert(all.take(i + 1).drop_last() =~= all.take(i as int));
                }
            }
            i = i + 1;
        }
        assert(all.take(n as int) =~= all);
        t
    }
}

/// The value of the last pair with key `k`.
pub open spec fn last_value(s: Seq<(Seq<char>, Seq<char>)>, k: Seq<char>) -> Option<Seq<char>>
    decreases s.len(),
{
    if s.len() == 0 {
        None
    } else if s.last().0 == k {
        Some(s.last().1)
    } else {
        last_value(s.drop_last(), k)
    }
}

impl Clone for PasswordTable {
    fn clone(&self) -> (r: Self)
        ensures
            r@ == self@,
    {
        proof {
            use_type_invariant(self);
        }
        let pairs = self.to_pairs();
        PasswordTable { entries: pairs }
    }
}

} // verus!
