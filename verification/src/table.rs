use vstd::prelude::*;

verus! {

/// True when the two byte strings hold the same bytes.
pub fn bytes_eq(a: &[u8], b: &[u8]) -> (same: bool)
    ensures
        same == (a@ == b@),
{
    if a.len() != b.len() {
        return false;
    }
    let mut i: usize = 0;
    while i < a.len()
        invariant
            a@.len() == b@.len(),
            i <= a@.len(),
            forall|j: int| 0 <= j < i ==> a@[j] == b@[j],
        decreases a@.len() - i,
    {
        if a[i] != b[i] {
            return false;
        }
        i = i + 1;
    }
    assert(a@ =~= b@);
    true
}

/// The key held at position `i` of an entry sequence.
pub open spec fn key_of<V>(es: Seq<(Vec<u8>, V)>, i: int) -> Seq<u8> {
    es[i].0@
}

/// `m` is exactly what the entry sequence `es` holds, and no key occurs twice in `es`.
pub open spec fn table_inv<V: View>(es: Seq<(Vec<u8>, V)>, m: Map<Seq<u8>, V::V>) -> bool {
    &&& forall|i: int, j: int|
        0 <= i < j < es.len() ==> #[trigger] key_of(es, i) != #[trigger] key_of(es, j)
    &&& forall|i: int|
        0 <= i < es.len() ==> #[trigger] m.contains_key(key_of(es, i)) && m[key_of(es, i)]
            == es[i].1@
    &&& forall|k: Seq<u8>|
        #[trigger] m.contains_key(k) ==> exists|i: int| 0 <= i < es.len() && #[trigger] key_of(es, i) == k
    &&& m.dom().finite()
    &&& m.len() == es.len()
}

proof fn lemma_inv_set<V: View>(es: Seq<(Vec<u8>, V)>, m: Map<Seq<u8>, V::V>, i: int, e: (Vec<u8>, V))
    requires
        table_inv(es, m),
        0 <= i < es.len(),
        e.0@ == key_of(es, i),
    ensures
        table_inv(es.update(i, e), m.insert(e.0@, e.1@)),
{
    let es2 = es.update(i, e);
    let m2 = m.insert(e.0@, e.1@);
    assert forall|j: int| 0 <= j < es2.len() implies key_of(es2, j) == key_of(es, j) by {}
    assert forall|j: int| 0 <= j < es2.len() implies #[trigger] m2.contains_key(key_of(es2, j)) && m2[key_of(es2, j)] == es2[j].1@ by {
        assert(key_of(es2, j) == key_of(es, j));
        assert(m.contains_key(key_of(es, j)));
        if j != i {
            assert(key_of(es, j) != key_of(es, i)) by {
                if j < i { assert(key_of(es, j) != key_of(es, i)); } else { assert(key_of(es, i) != key_of(es, j)); }
            }
        }
    }
    assert forall|k: Seq<u8>| #[trigger] m2.contains_key(k) implies exists|j: int| 0 <= j < es2.len() && #[trigger] key_of(es2, j) == k by {
        if k == e.0@ {
            assert(key_of(es2, i) == k);
        } else {
            let j = choose|j: int| 0 <= j < es.len() && #[trigger] key_of(es, j) == k;
            assert(key_of(es2, j) == k);
        }
    }
    assert(m.contains_key(key_of(es, i)));
    assert(m2.dom() =~= m.dom());
}

proof fn lemma_inv_push<V: View>(es: Seq<(Vec<u8>, V)>, m: Map<Seq<u8>, V::V>, e: (Vec<u8>, V))
    requires
        table_inv(es, m),
        !m.contains_key(e.0@),
    ensures
        table_inv(es.push(e), m.insert(e.0@, e.1@)),
{
    let es2 = es.push(e);
    let m2 = m.insert(e.0@, e.1@);
    assert forall|j: int| 0 <= j < es.len() implies key_of(es2, j) == key_of(es, j) by {}
    assert(key_of(es2, es.len() as int) == e.0@);
    assert forall|a: int, b: int| 0 <= a < b < es2.len() implies #[trigger] key_of(es2, a) != #[trigger] key_of(es2, b) by {
        assert(key_of(es2, a) == key_of(es, a));
        assert(m.contains_key(key_of(es, a)));
        if b < es.len() {
            assert(key_of(es2, b) == key_of(es, b));
        }
    }
    assert forall|j: int| 0 <= j < es2.len() implies #[trigger] m2.contains_key(key_of(es2, j)) && m2[key_of(es2, j)] == es2[j].1@ by {
        if j < es.len() {
            assert(key_of(es2, j) == key_of(es, j));
            assert(m.contains_key(key_of(es, j)));
        }
    }
    assert forall|k: Seq<u8>| #[trigger] m2.contains_key(k) implies exists|j: int| 0 <= j < es2.len() && #[trigger] key_of(es2, j) == k by {
        if k == e.0@ {
            assert(key_of(es2, es.len() as int) == k);
        } else {
            let j = choose|j: int| 0 <= j < es.len() && #[trigger] key_of(es, j) == k;
            assert(key_of(es2, j) == k);
        }
    }
}

proof fn lemma_inv_remove<V: View>(es: Seq<(Vec<u8>, V)>, m: Map<Seq<u8>, V::V>, i: int)
    requires
        table_inv(es, m),
        0 <= i < es.len(),
    ensures
        table_inv(es.remove(i), m.remove(key_of(es, i))),
{
    let es2 = es.remove(i);
    let k0 = key_of(es, i);
    let m2 = m.remove(k0);
    assert forall|j: int| 0 <= j < es2.len() implies #[trigger] key_of(es2, j) == if j < i { key_of(es, j) } else { key_of(es, j + 1) } by {}
    assert forall|a: int, b: int| 0 <= a < b < es2.len() implies #[trigger] key_of(es2, a) != #[trigger] key_of(es2, b) by {
        let a1 = if a < i { a } else { a + 1 };
        let b1 = if b < i { b } else { b + 1 };
        assert(key_of(es2, a) == key_of(es, a1));
        assert(key_of(es2, b) == key_of(es, b1));
    }
    assert forall|j: int| 0 <= j < es2.len() implies #[trigger] m2.contains_key(key_of(es2, j)) && m2[key_of(es2, j)] == es2[j].1@ by {
        let j1 = if j < i { j } else { j + 1 };
        assert(key_of(es2, j) == key_of(es, j1));
        assert(m.contains_key(key_of(es, j1)));
        if j1 < i { assert(key_of(es, j1) != key_of(es, i)); } else { assert(key_of(es, i) != key_of(es, j1)); }
    }
    assert forall|k: Seq<u8>| #[trigger] m2.contains_key(k) implies exists|j: int| 0 <= j < es2.len() && #[trigger] key_of(es2, j) == k by {
        let j = choose|j: int| 0 <= j < es.len() && #[trigger] key_of(es, j) == k;
        assert(j != i);
        let j2 = if j < i { j } else { j - 1 };
        assert(key_of(es2, j2) == k);
    }
    assert(m.contains_key(k0));
}

/// A table from byte-string keys to values, each key held at most once.
pub struct Table<V: View> {
    entries: Vec<(Vec<u8>, V)>,
    model: Ghost<Map<Seq<u8>, V::V>>,
}

impl<V: View> View for Table<V> {
    type V = Map<Seq<u8>, V::V>;

    closed spec fn view(&self) -> Map<Seq<u8>, V::V> {
        self.model@
    }
}

impl<V: View> Table<V> {
    /// The key stored at position `i` of the table.
    pub closed spec fn key_at(&self, i: int) -> Seq<u8> {
        key_of(self.entries@, i)
    }

    /// The number of entries the table holds.
    pub closed spec fn size(&self) -> nat {
        self.entries@.len()
    }

    #[verifier::type_invariant]
    closed spec fn inv(&self) -> bool {
        table_inv(self.entries@, self.model@)
    }

    pub fn new() -> (t: Self)
        ensures
            t@ == Map::<Seq<u8>, V::V>::empty(),
    {
        let t = Table { entries: Vec::new(), model: Ghost(Map::empty()) };
        proof {
            assert(t.model@.dom() =~= Set::empty());
        }
        t
    }

    fn find(&self, key: &[u8]) -> (r: Option<usize>)
        ensures
            match r {
                Some(i) => i < self.size() && self.key_at(i as int) == key@ && self@.contains_key(key@),
                None => !self@.contains_key(key@),
            },
    {
        proof { use_type_invariant(self); }
        let mut i: usize = 0;
        while i < self.entries.len()
            invariant
                i <= self.entries@.len(),
                table_inv(self.entries@, self.model@),
                forall|j: int| 0 <= j < i ==> key_of(self.entries@, j) != key@,
            decreases self.entries@.len() - i,
        {
            if bytes_eq(self.entries[i].0.as_slice(), key) {
                proof { assert(self.model@.contains_key(key_of(self.entries@, i as int))); }
                return Some(i);
            }
            i = i + 1;
        }
        None
    }

    pub fn len(&self) -> (n: usize)
        ensures
            n == self@.len(),
            n == self.size(),
            self@.dom().finite(),
            forall|i: int| 0 <= i < self.size() ==> #[trigger] self@.contains_key(self.key_at(i)),
            forall|k: Seq<u8>| #[trigger] self@.contains_key(k) ==> exists|i: int| 0 <= i < self.size() && #[trigger] self.key_at(i) == k,
            forall|i: int, j: int| 0 <= i < j < self.size() ==> #[trigger] self.key_at(i) != #[trigger] self.key_at(j),
    {
        proof {
            use_type_invariant(self);
            assert forall|k: Seq<u8>| #[trigger] self@.contains_key(k) implies exists|i: int| 0 <= i < self.size() && #[trigger] self.key_at(i) == k by {
                let i = choose|i: int| 0 <= i < self.entries@.len() && #[trigger] key_of(self.entries@, i) == k;
                assert(self.key_at(i) == k);
            }
        }
        self.entries.len()
    }

    /// The key at position `i`.
    pub fn key(&self, i: usize) -> (k: &Vec<u8>)
        requires
            i < self.size(),
        ensures
            k@ == self.key_at(i as int),
    {
        &self.entries[i].0
    }

    /// The value at position `i`.
    pub fn value(&self, i: usize) -> (v: &V)
        requires
            i < self.size(),
        ensures
            self@.contains_key(self.key_at(i as int)),
            v@ == self@[self.key_at(i as int)],
    {
        proof { use_type_invariant(self); }
        &self.entries[i].1
    }

    pub fn contains_key(&self, key: &[u8]) -> (b: bool)
        ensures
            b == self@.contains_key(key@),
    {
        self.find(key).is_some()
    }

    pub fn get(&self, key: &[u8]) -> (r: Option<&V>)
        ensures
            match r {
                Some(v) => self@.contains_key(key@) && v@ == self@[key@],
                None => !self@.contains_key(key@),
            },
    {
        proof { use_type_invariant(self); }
        match self.find(key) {
            Some(i) => {
                proof { assert(self.model@.contains_key(key_of(self.entries@, i as int))); }
                Some(&self.entries[i].1)
            },
            None => None,
        }
    }

    pub fn remove(&mut self, key: &[u8]) -> (r: Option<V>)
        ensures
            final(self)@ == old(self)@.remove(key@),
            match r {
                Some(v) => old(self)@.contains_key(key@) && v@ == old(self)@[key@],
                None => !old(self)@.contains_key(key@),
            },
    {
        let found = self.find(key);
        match found {
            None => {
                proof { assert(self@.remove(key@) =~= self@); }
                None
            },
            Some(i) => {
                let mut taken = Table::new();
                std::mem::swap(self, &mut taken);
                proof { use_type_invariant(&taken); }
                let Table { mut entries, model } = taken;
                proof {
                    lemma_inv_remove(entries@, model@, i as int);
                    assert(model@.contains_key(key_of(entries@, i as int)));
                }
                let ghost k = key_of(entries@, i as int);
                let (_, v) = entries.remove(i);
                *self = Table { entries, model: Ghost(model@.remove(k)) };
                Some(v)
            },
        }
    }

    pub fn clear(&mut self)
        ensures
            final(self)@ == Map::<Seq<u8>, V::V>::empty(),
    {
        *self = Table::new();
    }

    pub fn insert(&mut self, key: Vec<u8>, value: V)
        ensures
            final(self)@ == old(self)@.insert(key@, value@),
    {
        let ghost k = key@;
        let ghost v = value@;
        let found = self.find(key.as_slice());
        let mut taken = Table::new();
        std::mem::swap(self, &mut taken);
        proof { use_type_invariant(&taken); }
        let Table { mut entries, model } = taken;
        match found {
            Some(i) => {
                proof { lemma_inv_set(entries@, model@, i as int, (key, value)); }
                entries.set(i, (key, value));
            },
            None => {
                proof { lemma_inv_push(entries@, model@, (key, value)); }
                entries.push((key, value));
            },
        }
        *self = Table { entries, model: Ghost(model@.insert(k, v)) };
    }
}

}
