//! A finite map from strings to strings, used for attributes, declarations
//! and computed styles.
use vstd::prelude::*;
use crate::text::str_eq;

verus! {

/// Association list with distinct keys; its view is a `Map`.
pub struct StrMap {
    entries: Vec<(String, String)>,
}

pub open spec fn entries_map(e: Seq<(String, String)>) -> Map<Seq<char>, Seq<char>>
    decreases e.len(),
{
    if e.len() == 0 {
        Map::empty()
    } else {
        entries_map(e.drop_last()).insert(e.last().0@, e.last().1@)
    }
}

pub open spec fn keys_distinct(e: Seq<(String, String)>) -> bool {
    forall|i: int, j: int|
        0 <= i < e.len() && 0 <= j < e.len() && i != j ==> (#[trigger] e[i]).0@ != (#[trigger] e[j]).0@
}

/// With distinct keys, the map holds exactly the entries' keys, each bound
/// to its entry's value.
pub proof fn lemma_entries_map(e: Seq<(String, String)>)
    requires
        keys_distinct(e),
    ensures
        entries_map(e).dom().finite(),
        forall|k: Seq<char>|
            entries_map(e).contains_key(k) <==> exists|i: int| 0 <= i < e.len() && (#[trigger] e[i]).0@ == k,
        forall|i: int| 0 <= i < e.len() ==> #[trigger] entries_map(e)[e[i].0@] == e[i].1@,
    decreases e.len(),
{
    if e.len() > 0 {
        let p = e.drop_last();
        assert(keys_distinct(p));
        lemma_entries_map(p);
        assert forall|k: Seq<char>|
            entries_map(e).contains_key(k) <==> exists|i: int| 0 <= i < e.len() && (#[trigger] e[i]).0@ == k by {
            if entries_map(e).contains_key(k) && k != e.last().0@ {
                let i = choose|i: int| 0 <= i < p.len() && (#[trigger] p[i]).0@ == k;
                assert(e[i] == p[i]);
            }
            if exists|i: int| 0 <= i < e.len() && (#[trigger] e[i]).0@ == k {
                let i = choose|i: int| 0 <= i < e.len() && (#[trigger] e[i]).0@ == k;
                if i < e.len() - 1 {
                    assert(p[i] == e[i]);
                }
            }
        }
        assert forall|i: int| 0 <= i < e.len() implies #[trigger] entries_map(e)[e[i].0@] == e[i].1@ by {
            if i < e.len() - 1 {
                assert(p[i] == e[i]);
                assert(e[i].0@ != e[e.len() - 1].0@);
            }
        }
    }
}

impl View for StrMap {
    type V = Map<Seq<char>, Seq<char>>;

    closed spec fn view(&self) -> Map<Seq<char>, Seq<char>> {
        entries_map(self.entries@)
    }
}

impl StrMap {
    #[verifier::type_invariant]
    spec fn inv(self) -> bool {
        keys_distinct(self.entries@)
    }

    pub fn new() -> (m: StrMap)
        ensures
            m@ == Map::<Seq<char>, Seq<char>>::empty(),
    {
        StrMap { entries: Vec::new() }
    }

    /// Number of entries.
    pub fn len(&self) -> (n: usize)
        ensures
            n == self@.len(),
            n == self.num_entries(),
            self@.dom().finite(),
    {
        proof {
            use_type_invariant(self);
            self.lemma_len();
        }
        self.entries.len()
    }

    proof fn lemma_len(&self)
        requires
            keys_distinct(self.entries@),
        ensures
            self@.dom().finite(),
            self@.len() == self.entries@.len(),
    {
        lemma_len_of(self.entries@);
    }

    /// Number of stored entries (equal to `self@.len()`, see `len`).
    pub closed spec fn num_entries(&self) -> nat {
        self.entries@.len()
    }

    /// The index of the entry whose key is `k`, if any.
    fn find(&self, k: &str) -> (r: Option<usize>)
        ensures
            match r {
                Some(i) => i < self.entries@.len() && self.entries@[i as int].0@ == k@,
                None => forall|i: int| 0 <= i < self.entries@.len() ==> (#[trigger] self.entries@[i]).0@ != k@,
            },
    {
        let n = self.entries.len();
        let mut i: usize = 0;
        while i < n
            invariant
                n == self.entries@.len(),
                i <= n,
                forall|j: int| 0 <= j < i ==> (#[trigger] self.entries@[j]).0@ != k@,
            decreases n - i,
        {
            if str_eq(self.entries[i].0.as_str(), k) {
                return Some(i);
            }
            i = i + 1;
        }
        None
    }

    /// The value bound to `k`.
    pub fn get(&self, k: &str) -> (r: Option<&String>)
        ensures
            match r {
                Some(v) => self@.contains_key(k@) && self@[k@] == v@,
                None => !self@.contains_key(k@),
            },
    {
        proof {
            use_type_invariant(self);
            lemma_entries_map(self.entries@);
        }
        match self.find(k) {
            Some(i) => Some(&self.entries[i].1),
            None => None,
        }
    }

    pub fn contains_key(&self, k: &str) -> (r: bool)
        ensures
            r == self@.contains_key(k@),
    {
        self.get(k).is_some()
    }

    /// Binds `k` to `v`, replacing any earlier binding of `k`.
    pub fn insert(&mut self, k: String, v: String)
        ensures
            final(self)@ == old(self)@.insert(k@, v@),
    {
        proof {
            use_type_invariant(&*self);
            lemma_entries_map(self.entries@);
        }
        let ghost old_e = self.entries@;
        let found = self.find(k.as_str());
        let mut tmp = StrMap::new();
        std::mem::swap(self, &mut tmp);
        let StrMap { entries: mut entries } = tmp;
        match found {
            Some(i) => {
                let ghost kv = k@;
                let ghost vv = v@;
                entries.set(i, (k, v));
                proof {
                    let e = entries@;
                    assert(keys_distinct(e)) by {
                        assert forall|a: int, b: int|
                            0 <= a < e.len() && 0 <= b < e.len() && a != b implies (#[trigger] e[a]).0@
                            != (#[trigger] e[b]).0@ by {
                            if a != i && b != i {
                                assert(e[a] == old_e[a] && e[b] == old_e[b]);
                            } else if a == i {
                                assert(e[b] == old_e[b]);
                            } else {
                                assert(e[a] == old_e[a]);
                            }
                        }
                    }
                    lemma_entries_map(e);
                    assert forall|key: Seq<char>|
                        entries_map(e).contains_key(key) <==> entries_map(old_e).insert(kv, vv).contains_key(key) by {
                        if exists|j: int| 0 <= j < old_e.len() && (#[trigger] old_e[j]).0@ == key {
                            let j = choose|j: int| 0 <= j < old_e.len() && (#[trigger] old_e[j]).0@ == key;
                            if j != i {
                                assert(e[j] == old_e[j]);
                            } else {
                                assert(e[i as int].0@ == key);
                            }
                        }
                        if exists|j: int| 0 <= j < e.len() && (#[trigger] e[j]).0@ == key {
                            let j = choose|j: int| 0 <= j < e.len() && (#[trigger] e[j]).0@ == key;
                            if j != i {
                                assert(e[j] == old_e[j]);
                            }
                        }
                        assert(e[i as int].0@ == kv);
                    }
                    assert forall|key: Seq<char>| #[trigger] entries_map(e).contains_key(key) implies
                        entries_map(e)[key] == entries_map(old_e).insert(kv, vv)[key] by {
                        let j = choose|j: int| 0 <= j < e.len() && (#[trigger] e[j]).0@ == key;
                        if j != i {
                            assert(e[j] == old_e[j]);
                        }
                    }
                    assert(entries_map(e) =~= entries_map(old_e).insert(kv, vv));
                }
                *self = StrMap { entries };
            },
            None => {
                entries.push((k, v));
                proof {
                    let e = entries@;
                    assert(e.drop_last() =~= old_e);
                    assert(keys_distinct(e)) by {
                        assert forall|a: int, b: int|
                            0 <= a < e.len() && 0 <= b < e.len() && a != b implies (#[trigger] e[a]).0@
                            != (#[trigger] e[b]).0@ by {
                            if a < old_e.len() && b < old_e.len() {
                                assert(e[a] == old_e[a] && e[b] == old_e[b]);
                            } else if a < old_e.len() {
                                assert(e[a] == old_e[a]);
                            } else {
                                assert(e[b] == old_e[b]);
                            }
                        }
                    }
                }
                *self = StrMap { entries };
            },
        }
    }

    /// The key of the entry at position `i`; entries are in no particular
    /// order.
    pub fn key_at(&self, i: usize) -> (r: &String)
        requires
            i < self.num_entries(),
        ensures
            self@.contains_key(r@),
            self@[r@] == self.value_spec(i as int),
            r@ == self.key_spec(i as int),
    {
        proof {
            use_type_invariant(self);
            lemma_entries_map(self.entries@);
            self.lemma_len();
        }
        &self.entries[i].0
    }

    /// The value of the entry at position `i`.
    pub fn value_at(&self, i: usize) -> (r: &String)
        requires
            i < self.num_entries(),
        ensures
            r@ == self.value_spec(i as int),
    {
        &self.entries[i].1
    }

    /// A copy of the map.
    pub fn clone_map(&self) -> (r: StrMap)
        ensures
            r@ == self@,
    {
        proof {
            use_type_invariant(self);
        }
        let n = self.entries.len();
        let mut entries: Vec<(String, String)> = Vec::new();
        let mut i: usize = 0;
        while i < n
            invariant
                n == self.entries@.len(),
                i <= n,
                keys_distinct(self.entries@),
                entries@.len() == i,
                forall|j: int| 0 <= j < i ==> (#[trigger] entries@[j]).0@ == self.entries@[j].0@
                    && entries@[j].1@ == self.entries@[j].1@,
            decreases n - i,
        {
            let k = self.entries[i].0.clone();
            let v = self.entries[i].1.clone();
            entries.push((k, v));
            i = i + 1;
        }
        proof {
            lemma_entries_map_views(entries@, self.entries@);
        }
        StrMap { entries }
    }

    /// Adds every binding of `other`, which wins over `self`.
    pub fn extend(&mut self, other: &StrMap)
        ensures
            final(self)@ == old(self)@.union_prefer_right(other@),
    {
        let n = other.len();
        let mut i: usize = 0;
        proof {
            other.lemma_prefix_empty();
            assert(self@.union_prefer_right(other.prefix_map(0)) =~= self@);
        }
        while i < n
            invariant
                n == other.num_entries(),
                i <= n,
                self@ == old(self)@.union_prefer_right(other.prefix_map(i as int)),
            decreases n - i,
        {
            let k = other.key_at(i).clone();
            let v = other.value_at(i).clone();
            proof {
                other.lemma_prefix_map(i as int);
            }
            self.insert(k, v);
            proof {
                assert(self@ =~= old(self)@.union_prefer_right(other.prefix_map(i + 1)));
            }
            i = i + 1;
        }
        proof {
            other.lemma_prefix_map(n as int);
        }
    }

    pub closed spec fn key_spec(&self, i: int) -> Seq<char> {
        self.entries@[i].0@
    }

    pub closed spec fn value_spec(&self, i: int) -> Seq<char> {
        self.entries@[i].1@
    }

    /// The entries at positions `0..n` bind each key they hold, and `self@`
    /// is made of the first `len` of them.
    pub proof fn lemma_prefix_map(&self, n: int)
        requires
            0 <= n <= self.num_entries(),
        ensures
            self.prefix_map(n).dom().finite(),
            n == self.num_entries() ==> self.prefix_map(n) == self@,
            n < self.num_entries() ==> self.prefix_map(n + 1) == self.prefix_map(n).insert(
                self.key_spec(n),
                self.value_spec(n),
            ),
    {
        lemma_len_of(self.entries@.subrange(0, n));
        if n == self.num_entries() {
            assert(self.entries@.subrange(0, n) =~= self.entries@);
        } else {
            assert(self.entries@.subrange(0, n + 1).drop_last() =~= self.entries@.subrange(0, n));
        }
    }

    /// The map made of the entries at positions `0..n`.
    pub closed spec fn prefix_map(&self, n: int) -> Map<Seq<char>, Seq<char>> {
        entries_map(self.entries@.subrange(0, n))
    }

    pub proof fn lemma_prefix_empty(&self)
        ensures
            self.prefix_map(0) == Map::<Seq<char>, Seq<char>>::empty(),
    {
        assert(self.entries@.subrange(0, 0) =~= Seq::<(String, String)>::empty());
    }
}

/// Two entry lists with the same key and value views give the same map,
/// and distinctness carries over.
proof fn lemma_entries_map_views(a: Seq<(String, String)>, b: Seq<(String, String)>)
    requires
        a.len() == b.len(),
        forall|j: int| 0 <= j < a.len() ==> (#[trigger] a[j]).0@ == b[j].0@ && a[j].1@ == b[j].1@,
    ensures
        entries_map(a) == entries_map(b),
        keys_distinct(b) ==> keys_distinct(a),
    decreases a.len(),
{
    if a.len() > 0 {
        lemma_entries_map_views(a.drop_last(), b.drop_last());
        assert(a.last().0@ == b.last().0@);
    }
    if keys_distinct(b) {
        assert forall|i: int, j: int|
            0 <= i < a.len() && 0 <= j < a.len() && i != j implies (#[trigger] a[i]).0@ != (#[trigger] a[j]).0@ by {
            assert(b[i].0@ != b[j].0@);
        }
    }
}

proof fn lemma_len_of(e: Seq<(String, String)>)
    ensures
        entries_map(e).dom().finite(),
        keys_distinct(e) ==> entries_map(e).len() == e.len(),
    decreases e.len(),
{
    if e.len() > 0 {
        let p = e.drop_last();
        lemma_len_of(p);
        if keys_distinct(e) {
            assert(keys_distinct(p));
            lemma_entries_map(p);
            assert(!entries_map(p).contains_key(e.last().0@)) by {
                if entries_map(p).contains_key(e.last().0@) {
                    let i = choose|i: int| 0 <= i < p.len() && (#[trigger] p[i]).0@ == e.last().0@;
                    assert(e[i] == p[i]);
                }
            }
        }
    }
}

} // verus!
