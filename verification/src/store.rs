use vstd::prelude::*;
use std::collections::VecDeque;
use crate::table::Table;

verus! {

/// A stored value: a string, a list or a hash.
pub enum Entry {
    Str(Vec<u8>),
    List(VecDeque<Vec<u8>>),
    Hash(Table<Vec<u8>>),
}

/// What a stored value holds.
#[verifier::ext_equal]
pub enum Item {
    Str(Seq<u8>),
    List(Seq<Seq<u8>>),
    Hash(Map<Seq<u8>, Seq<u8>>),
}

/// The byte strings a list holds, front first.
pub open spec fn list_items(l: Seq<Vec<u8>>) -> Seq<Seq<u8>> {
    l.map_values(|b: Vec<u8>| b@)
}

impl View for Entry {
    type V = Item;

    open spec fn view(&self) -> Item {
        match self {
            Entry::Str(b) => Item::Str(b@),
            Entry::List(l) => Item::List(list_items(l@)),
            Entry::Hash(h) => Item::Hash(h@),
        }
    }
}

/// The keyspace: what each key holds, the deadlines of the keys that expire, and counters.
pub struct Store {
    pub data: Table<Entry>,
    /// unix ms deadline
    pub expires: Table<u64>,
    pub cmds: u64,
    pub hits: u64,
    pub misses: u64,
}

/// What the keyspace holds.
#[verifier::ext_equal]
pub struct Keyspace {
    pub data: Map<Seq<u8>, Item>,
    pub expires: Map<Seq<u8>, u64>,
    pub cmds: u64,
    pub hits: u64,
    pub misses: u64,
}

impl View for Store {
    type V = Keyspace;

    open spec fn view(&self) -> Keyspace {
        Keyspace {
            data: self.data@,
            expires: self.expires@,
            cmds: self.cmds,
            hits: self.hits,
            misses: self.misses,
        }
    }
}

/// The keyspace after the lazy expiry check of `key` at time `now`: a key whose deadline has
/// come is dropped together with its deadline.
pub open spec fn expired(s: Keyspace, key: Seq<u8>, now: u64) -> Keyspace {
    if s.expires.contains_key(key) && now >= s.expires[key] {
        Keyspace { data: s.data.remove(key), expires: s.expires.remove(key), ..s }
    } else {
        s
    }
}

/// The type name of what `key` holds.
pub open spec fn kind_text(data: Map<Seq<u8>, Item>, key: Seq<u8>) -> Seq<char> {
    if !data.contains_key(key) {
        "none"@
    } else {
        match data[key] {
            Item::Str(_) => "string"@,
            Item::List(_) => "list"@,
            Item::Hash(_) => "hash"@,
        }
    }
}

/// True when `q` is among the first `i` keys of the table.
pub open spec fn among_first<V: View>(t: &Table<V>, i: int, q: Seq<u8>) -> bool {
    exists|j: int| 0 <= j < i && #[trigger] t.key_at(j) == q
}

/// The keys of `data` that hold a string.
pub open spec fn string_keys(data: Map<Seq<u8>, Item>) -> Set<Seq<u8>> {
    data.dom().filter(|k: Seq<u8>| data[k] is Str)
}

/// The keys of `data` that hold a list.
pub open spec fn list_keys(data: Map<Seq<u8>, Item>) -> Set<Seq<u8>> {
    data.dom().filter(|k: Seq<u8>| data[k] is List)
}

/// The keys of `data` that hold a hash.
pub open spec fn hash_keys(data: Map<Seq<u8>, Item>) -> Set<Seq<u8>> {
    data.dom().filter(|k: Seq<u8>| data[k] is Hash)
}

impl Default for Store {
    fn default() -> (s: Store)
        ensures
            s@.data == Map::<Seq<u8>, Item>::empty(),
            s@.expires == Map::<Seq<u8>, u64>::empty(),
            s.cmds == 0 && s.hits == 0 && s.misses == 0,
    {
        Store::new()
    }
}

impl Store {
    pub fn new() -> (s: Store)
        ensures
            s@.data == Map::<Seq<u8>, Item>::empty(),
            s@.expires == Map::<Seq<u8>, u64>::empty(),
            s.cmds == 0 && s.hits == 0 && s.misses == 0,
    {
        Store { data: Table::new(), expires: Table::new(), cmds: 0, hits: 0, misses: 0 }
    }

    /// Drops the key if its TTL has passed (lazy expiry).
    pub fn expire_check(&mut self, key: &[u8], now: u64)
        ensures
            final(self)@ == expired(old(self)@, key@, now),
    {
        let deadline = match self.expires.get(key) {
            Some(d) => *d,
            None => {
                return;
            },
        };
        if now >= deadline {
            self.data.remove(key);
            self.expires.remove(key);
        }
    }

    pub fn key_type(&self, key: &[u8]) -> (name: &'static str)
        ensures
            name@ == kind_text(self@.data, key@),
    {
        match self.data.get(key) {
            Some(Entry::Str(_)) => "string",
            Some(Entry::List(_)) => "list",
            Some(Entry::Hash(_)) => "hash",
            None => "none",
        }
    }

    /// How many keys hold a string, a list and a hash.
    pub fn type_counts(&self) -> (c: (usize, usize, usize))
        ensures
            c.0 == string_keys(self@.data).len(),
            c.1 == list_keys(self@.data).len(),
            c.2 == hash_keys(self@.data).len(),
            c.0 + c.1 + c.2 == self@.data.len(),
    {
        let n = self.data.len();
        let mut strs: usize = 0;
        let mut lists: usize = 0;
        let mut hashes: usize = 0;
        let ghost mut ss: Set<Seq<u8>> = Set::empty();
        let ghost mut ls: Set<Seq<u8>> = Set::empty();
        let ghost mut hs: Set<Seq<u8>> = Set::empty();
        let mut i: usize = 0;
        while i < n
            invariant
                n == self.data.size(),
                n == self@.data.len(),
                i <= n,
                forall|j: int| 0 <= j < n ==> #[trigger] self@.data.contains_key(self.data.key_at(j)),
                forall|a: int, b: int| 0 <= a < b < n ==> #[trigger] self.data.key_at(a) != #[trigger] self.data.key_at(b),
                ss.finite() && ls.finite() && hs.finite(),
                ss.len() == strs && ls.len() == lists && hs.len() == hashes,
                strs + lists + hashes == i,
                forall|k: Seq<u8>| #[trigger] ss.contains(k) <==> among_first(&self.data, i as int, k) && self@.data[k] is Str,
                forall|k: Seq<u8>| #[trigger] ls.contains(k) <==> among_first(&self.data, i as int, k) && self@.data[k] is List,
                forall|k: Seq<u8>| #[trigger] hs.contains(k) <==> among_first(&self.data, i as int, k) && self@.data[k] is Hash,
            decreases n - i,
        {
            let ghost k = self.data.key_at(i as int);
            proof {
                assert forall|j: int| 0 <= j < i implies self.data.key_at(j) != k by {}
            }
            match self.data.value(i) {
                Entry::Str(_) => {
                    strs = strs + 1;
                    proof { ss = ss.insert(k); }
                },
                Entry::List(_) => {
                    lists = lists + 1;
                    proof { ls = ls.insert(k); }
                },
                Entry::Hash(_) => {
                    hashes = hashes + 1;
                    proof { hs = hs.insert(k); }
                },
            }
            i = i + 1;
            proof {
                assert forall|q: Seq<u8>| #[trigger] among_first(&self.data, i as int, q) <==> (among_first(&self.data, i - 1, q) || q == k) by {
                    if q == k {
                        assert(self.data.key_at(i - 1) == q);
                    }
                }
            }
        }
        proof {
            assert forall|q: Seq<u8>| self@.data.contains_key(q) implies #[trigger] among_first(&self.data, n as int, q) by {}
            assert(ss =~= string_keys(self@.data));
            assert(ls =~= list_keys(self@.data));
            assert(hs =~= hash_keys(self@.data));
        }
        (strs, lists, hashes)
    }
}

}
