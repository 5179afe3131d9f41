use vstd::prelude::*;
use vstd::utf8::encode_utf8;
use crate::resp::Reply;
use crate::store::{Item, Keyspace, expired, kind_text};
use crate::text::{decimal_text, i64_of_text, lossy_text, lower_text, upper_text};

verus! {

/// The keyspace with one more command counted.
pub open spec fn bump(s: Keyspace) -> Keyspace {
    Keyspace { cmds: (s.cmds + 1) as u64, ..s }
}

/// The name a command goes by: its first argument read as text and upper-cased.
pub open spec fn command_name(first: Seq<u8>) -> Seq<char> {
    upper_text(lossy_text(first))
}

pub open spec fn ok_reply() -> Reply {
    Reply::Simple("OK"@)
}

pub open spec fn wrongtype_reply() -> Reply {
    Reply::Error("WRONGTYPE Operation against a key holding the wrong kind of value"@)
}

pub open spec fn not_int_reply() -> Reply {
    Reply::Error("ERR value is not an integer or out of range"@)
}

/// The error for too few arguments: it names the command in lower case.
pub open spec fn arity_reply(a: Seq<Seq<u8>>) -> Reply {
    Reply::Error("ERR wrong number of arguments for '"@ + lower_text(lossy_text(a[0])) + "'"@)
}

/// A count as the reply's 64-bit integer.
pub open spec fn count_reply(n: int) -> Reply {
    Reply::Int((n as i64) as int)
}

pub open spec fn with_data(s: Keyspace, data: Map<Seq<u8>, Item>) -> Keyspace {
    Keyspace { data, ..s }
}

pub open spec fn with_expires(s: Keyspace, expires: Map<Seq<u8>, u64>) -> Keyspace {
    Keyspace { expires, ..s }
}

/// `s` without `key` and without its deadline.
pub open spec fn without_key(s: Keyspace, key: Seq<u8>) -> Keyspace {
    Keyspace { data: s.data.remove(key), expires: s.expires.remove(key), ..s }
}

/// The deadline `now + ms`, or nothing when it does not fit in 64 bits.
pub open spec fn deadline(now: u64, ms: int) -> Option<u64> {
    if now + ms <= u64::MAX { Some((now + ms) as u64) } else { None }
}

/// A non-negative part of `n`.
pub open spec fn clamp0(n: int) -> int {
    if n < 0 { 0 } else { n }
}

/// The keyspace once the key at `a[1]` has been checked for a passed deadline, when the command
/// has at least `n` arguments; else as it is.
pub open spec fn checked(s: Keyspace, a: Seq<Seq<u8>>, now: u64, n: int) -> Keyspace {
    if a.len() >= n { expired(s, a[1], now) } else { s }
}

/// True when `k` holds a value whose deadline, if any, has not come at `now`.
pub open spec fn is_live(s: Keyspace, k: Seq<u8>, now: u64) -> bool {
    s.data.contains_key(k) && !(s.expires.contains_key(k) && now >= s.expires[k])
}

/// The keys of `s` that hold a value whose deadline, if any, has not come at `now`.
pub open spec fn live_keys(s: Keyspace, now: u64) -> Set<Seq<u8>> {
    s.data.dom().filter(|k: Seq<u8>| is_live(s, k, now))
}

/// The key `LLEN` reads: its argument, or the empty key.
pub open spec fn llen_key(a: Seq<Seq<u8>>) -> Seq<u8> {
    if a.len() > 1 { a[1] } else { Seq::empty() }
}

// ---- strings ----

/// The expiry map after the first `p` `EX`/`PX` option pairs of a `SET`.
pub open spec fn set_options(e: Map<Seq<u8>, u64>, a: Seq<Seq<u8>>, now: u64, p: nat) -> Option<Map<Seq<u8>, u64>>
    decreases p,
{
    if p == 0 {
        Some(e)
    } else {
        match set_options(e, a, now, (p - 1) as nat) {
            None => None,
            Some(e1) => {
                let i = 3 + 2 * (p - 1);
                let opt = upper_text(lossy_text(a[i]));
                match i64_of_text(a[i + 1]) {
                    None => Some(e1),
                    Some(n) => if opt == "EX"@ {
                        match deadline(now, clamp0(n as int) * 1000) {
                            Some(d) => Some(e1.insert(a[1], d)),
                            None => None,
                        }
                    } else if opt == "PX"@ {
                        match deadline(now, clamp0(n as int)) {
                            Some(d) => Some(e1.insert(a[1], d)),
                            None => None,
                        }
                    } else {
                        Some(e1)
                    },
                }
            },
        }
    }
}

/// How many option pairs a `SET` with `len` arguments reads.
pub open spec fn option_pairs(len: int) -> nat {
    if len < 5 { 0 } else { ((len - 3) / 2) as nat }
}

pub open spec fn set_cmd(s: Keyspace, a: Seq<Seq<u8>>, now: u64) -> Option<(Keyspace, Reply)> {
    if a.len() < 3 {
        Some((s, arity_reply(a)))
    } else {
        let data = s.data.insert(a[1], Item::Str(a[2]));
        match set_options(s.expires.remove(a[1]), a, now, option_pairs(a.len() as int)) {
            None => None,
            Some(e) => Some((Keyspace { data, expires: e, ..s }, ok_reply())),
        }
    }
}

pub open spec fn get_cmd(s: Keyspace, a: Seq<Seq<u8>>, now: u64) -> Option<(Keyspace, Reply)> {
    if a.len() < 2 {
        Some((s, arity_reply(a)))
    } else {
        let s1 = expired(s, a[1], now);
        if !s1.data.contains_key(a[1]) {
            if s1.misses == u64::MAX { None } else {
                Some((Keyspace { misses: (s1.misses + 1) as u64, ..s1 }, Reply::Null))
            }
        } else {
            match s1.data[a[1]] {
                Item::Str(b) => if s1.hits == u64::MAX { None } else {
                    Some((Keyspace { hits: (s1.hits + 1) as u64, ..s1 }, Reply::Bulk(b)))
                },
                _ => Some((s1, wrongtype_reply())),
            }
        }
    }
}

/// What `INCR`-like commands read before adding: the number a key holds (zero when it holds
/// nothing), or the error reply.
pub open spec fn current_int(s: Keyspace, key: Seq<u8>) -> Result<int, Reply> {
    if !s.data.contains_key(key) {
        Ok(0)
    } else {
        match s.data[key] {
            Item::Str(b) => match i64_of_text(b) {
                Some(n) => Ok(n as int),
                None => Err(not_int_reply()),
            },
            _ => Err(wrongtype_reply()),
        }
    }
}

pub open spec fn incr_cmd(s: Keyspace, a: Seq<Seq<u8>>, now: u64, delta: int) -> Option<(Keyspace, Reply)> {
    if a.len() < 2 {
        Some((s, arity_reply(a)))
    } else {
        let s1 = expired(s, a[1], now);
        match current_int(s1, a[1]) {
            Err(r) => Some((s1, r)),
            Ok(c) => {
                let n = c + delta;
                if i64::MIN <= n <= i64::MAX {
                    Some((with_data(s1, s1.data.insert(a[1], Item::Str(decimal_text(n)))), Reply::Int(n)))
                } else {
                    None
                }
            },
        }
    }
}

pub open spec fn incrby_cmd(s: Keyspace, a: Seq<Seq<u8>>, now: u64, down: bool) -> Option<(Keyspace, Reply)> {
    if a.len() < 3 {
        Some((s, arity_reply(a)))
    } else {
        match i64_of_text(a[2]) {
            None => Some((s, not_int_reply())),
            Some(by) => if down && by == i64::MIN {
                None
            } else {
                incr_cmd(s, a, now, if down { -(by as int) } else { by as int })
            },
        }
    }
}

pub open spec fn append_cmd(s: Keyspace, a: Seq<Seq<u8>>, now: u64) -> Option<(Keyspace, Reply)> {
    if a.len() < 3 {
        Some((s, arity_reply(a)))
    } else {
        let s1 = expired(s, a[1], now);
        if !s1.data.contains_key(a[1]) {
            Some((with_data(s1, s1.data.insert(a[1], Item::Str(a[2]))), count_reply(a[2].len() as int)))
        } else {
            match s1.data[a[1]] {
                Item::Str(b) => Some((with_data(s1, s1.data.insert(a[1], Item::Str(b + a[2]))), count_reply((b.len() + a[2].len()) as int))),
                _ => Some((s1, wrongtype_reply())),
            }
        }
    }
}

pub open spec fn strlen_cmd(s: Keyspace, a: Seq<Seq<u8>>, now: u64) -> Option<(Keyspace, Reply)> {
    if a.len() < 2 {
        None
    } else {
        let s1 = expired(s, a[1], now);
        if !s1.data.contains_key(a[1]) {
            Some((s1, Reply::Int(0)))
        } else {
            match s1.data[a[1]] {
                Item::Str(b) => Some((s1, count_reply(b.len() as int))),
                _ => Some((s1, wrongtype_reply())),
            }
        }
    }
}

// ---- keys ----

/// `DEL` over the first `n` keys after the command name: the keyspace and how many went.
pub open spec fn del_keys(s: Keyspace, a: Seq<Seq<u8>>, now: u64, n: nat) -> (Keyspace, int)
    decreases n,
{
    if n == 0 {
        (s, 0)
    } else {
        let (s1, c) = del_keys(s, a, now, (n - 1) as nat);
        let k = a[n as int];
        let s2 = expired(s1, k, now);
        if s2.data.contains_key(k) { (without_key(s2, k), c + 1) } else { (s2, c) }
    }
}

/// `EXISTS` over the first `n` keys after the command name: the keyspace and how many exist.
pub open spec fn exists_keys(s: Keyspace, a: Seq<Seq<u8>>, now: u64, n: nat) -> (Keyspace, int)
    decreases n,
{
    if n == 0 {
        (s, 0)
    } else {
        let (s1, c) = exists_keys(s, a, now, (n - 1) as nat);
        let k = a[n as int];
        let s2 = expired(s1, k, now);
        (s2, if s2.data.contains_key(k) { c + 1 } else { c })
    }
}

pub open spec fn del_cmd(s: Keyspace, a: Seq<Seq<u8>>, now: u64) -> Option<(Keyspace, Reply)> {
    let (s1, c) = del_keys(s, a, now, (a.len() - 1) as nat);
    Some((s1, count_reply(c)))
}

pub open spec fn exists_cmd(s: Keyspace, a: Seq<Seq<u8>>, now: u64) -> Option<(Keyspace, Reply)> {
    let (s1, c) = exists_keys(s, a, now, (a.len() - 1) as nat);
    Some((s1, count_reply(c)))
}

/// `TYPE` on a keyspace whose key was checked for a passed deadline (see `run`).
pub open spec fn type_cmd(s: Keyspace, a: Seq<Seq<u8>>) -> Option<(Keyspace, Reply)> {
    if a.len() < 2 { None } else { Some((s, Reply::Simple(kind_text(s.data, a[1])))) }
}

pub open spec fn expire_cmd(s: Keyspace, a: Seq<Seq<u8>>, now: u64) -> Option<(Keyspace, Reply)> {
    if a.len() < 3 {
        Some((s, arity_reply(a)))
    } else {
        match i64_of_text(a[2]) {
            None => Some((s, not_int_reply())),
            Some(secs) => {
                let s1 = expired(s, a[1], now);
                if s1.data.contains_key(a[1]) {
                    match deadline(now, clamp0(secs as int) * 1000) {
                        Some(d) => Some((with_expires(s1, s1.expires.insert(a[1], d)), Reply::Int(1))),
                        None => None,
                    }
                } else {
                    Some((s1, Reply::Int(0)))
                }
            },
        }
    }
}

pub open spec fn ttl_cmd(s: Keyspace, a: Seq<Seq<u8>>, now: u64) -> Option<(Keyspace, Reply)> {
    if a.len() < 2 {
        None
    } else {
        let s1 = expired(s, a[1], now);
        if !s1.data.contains_key(a[1]) {
            Some((s1, Reply::Int(-2)))
        } else if s1.expires.contains_key(a[1]) {
            let dl = s1.expires[a[1]];
            Some((s1, Reply::Int(if dl > now { (dl - now) / 1000 } else { 0 })))
        } else {
            Some((s1, Reply::Int(-1)))
        }
    }
}

/// `PERSIST` on a keyspace whose key was checked for a passed deadline (see `run`).
pub open spec fn persist_cmd(s: Keyspace, a: Seq<Seq<u8>>) -> Option<(Keyspace, Reply)> {
    if a.len() < 2 {
        None
    } else {
        Some((with_expires(s, s.expires.remove(a[1])), Reply::Int(if s.expires.contains_key(a[1]) { 1 } else { 0 })))
    }
}

/// Whether `s` matches the glob pattern `p` from positions `i` and `j` on: `*` matches any run
/// of bytes, `?` any one byte, every other byte itself.
pub open spec fn glob_from(p: Seq<u8>, s: Seq<u8>, i: int, j: int) -> bool
    decreases p.len() - i + s.len() - j, 1int,
{
    if i < 0 || j < 0 || i > p.len() || j > s.len() {
        false
    } else if i == p.len() {
        j == s.len()
    } else if p[i] == 42u8 {
        glob_from(p, s, i + 1, j) || (j < s.len() && glob_from(p, s, i, j + 1))
    } else if j == s.len() {
        false
    } else if p[i] == 63u8 || p[i] == s[j] {
        glob_from(p, s, i + 1, j + 1)
    } else {
        false
    }
}

/// Whether `s` matches the glob pattern `p`.
pub open spec fn glob_matches(p: Seq<u8>, s: Seq<u8>) -> bool {
    glob_from(p, s, 0, 0)
}

/// The pattern `KEYS` uses: its argument, or `*`.
pub open spec fn keys_pattern(a: Seq<Seq<u8>>) -> Seq<u8> {
    if a.len() > 1 { a[1] } else { seq![42u8] }
}

/// `r` lists each of `keys` once as a bulk string, in some order, and nothing else.
pub open spec fn lists_keys(r: Reply, keys: Set<Seq<u8>>) -> bool {
    &&& r is Array
    &&& forall|i: int| 0 <= i < r->Array_0.len() ==> #[trigger] r->Array_0[i] is Bulk
    &&& forall|i: int, j: int| 0 <= i < j < r->Array_0.len() ==> #[trigger] r->Array_0[i] != #[trigger] r->Array_0[j]
    &&& forall|k: Seq<u8>| #[trigger] keys.contains(k) <==> exists|i: int| 0 <= i < r->Array_0.len() && #[trigger] r->Array_0[i] == Reply::Bulk(k)
}

/// The live keys of `s` at `now` that match the pattern.
pub open spec fn matching_keys(s: Keyspace, now: u64, p: Seq<u8>) -> Set<Seq<u8>> {
    s.data.dom().filter(|k: Seq<u8>| is_live(s, k, now) && glob_matches(p, k))
}

// ---- lists ----

/// The list after pushing `vals`, one by one, at the front or at the back.
pub open spec fn pushed(l: Seq<Seq<u8>>, vals: Seq<Seq<u8>>, left: bool) -> Seq<Seq<u8>> {
    if left { vals.reverse() + l } else { l + vals }
}

pub open spec fn push_cmd(s: Keyspace, a: Seq<Seq<u8>>, now: u64, left: bool) -> Option<(Keyspace, Reply)> {
    if a.len() < 3 {
        Some((s, arity_reply(a)))
    } else {
        let s1 = expired(s, a[1], now);
        let vals = a.subrange(2, a.len() as int);
        if !s1.data.contains_key(a[1]) {
            let l = pushed(Seq::empty(), vals, left);
            Some((with_data(s1, s1.data.insert(a[1], Item::List(l))), count_reply(l.len() as int)))
        } else {
            match s1.data[a[1]] {
                Item::List(l0) => {
                    let l = pushed(l0, vals, left);
                    Some((with_data(s1, s1.data.insert(a[1], Item::List(l))), count_reply(l.len() as int)))
                },
                _ => Some((s1, wrongtype_reply())),
            }
        }
    }
}

pub open spec fn pop_cmd(s: Keyspace, a: Seq<Seq<u8>>, now: u64, left: bool) -> Option<(Keyspace, Reply)> {
    if a.len() < 2 {
        Some((s, arity_reply(a)))
    } else {
        let s1 = expired(s, a[1], now);
        if !s1.data.contains_key(a[1]) {
            Some((s1, Reply::Null))
        } else {
            match s1.data[a[1]] {
                Item::List(l) => if l.len() == 0 {
                    Some((s1, Reply::Null))
                } else if left {
                    Some((with_data(s1, s1.data.insert(a[1], Item::List(l.drop_first()))), Reply::Bulk(l[0])))
                } else {
                    Some((with_data(s1, s1.data.insert(a[1], Item::List(l.drop_last()))), Reply::Bulk(l.last())))
                },
                _ => Some((s1, wrongtype_reply())),
            }
        }
    }
}

/// `LLEN` on a keyspace whose key was checked for a passed deadline (see `run`).
pub open spec fn llen_cmd(s: Keyspace, a: Seq<Seq<u8>>) -> Option<(Keyspace, Reply)> {
    let key = if a.len() > 1 { a[1] } else { Seq::empty() };
    if !s.data.contains_key(key) {
        Some((s, Reply::Int(0)))
    } else {
        match s.data[key] {
            Item::List(l) => Some((s, count_reply(l.len() as int))),
            _ => Some((s, wrongtype_reply())),
        }
    }
}

/// The items of `l` at positions `lo` to `hi`, both included, that exist.
pub open spec fn range_items(l: Seq<Seq<u8>>, lo: int, hi: int) -> Seq<Seq<u8>>
    decreases hi - lo + 1,
{
    if hi < lo {
        Seq::empty()
    } else {
        range_items(l, lo, hi - 1) + if 0 <= hi < l.len() { seq![l[hi]] } else { Seq::empty() }
    }
}

/// Bulk replies for byte strings.
pub open spec fn bulks(items: Seq<Seq<u8>>) -> Seq<Reply> {
    items.map_values(|b: Seq<u8>| Reply::Bulk(b))
}

/// The first and last position `LRANGE` reads for `start` and `stop` on a list of `len` items:
/// negative positions count from the end, then both are clamped into the list.
pub open spec fn lrange_bounds(start: int, stop: int, len: int) -> (int, int) {
    let a = if start < 0 { start + len } else { start };
    let b = if stop < 0 { stop + len } else { stop };
    (if a < 0 { 0 } else { a }, if b > len - 1 { len - 1 } else { b })
}

/// `LRANGE` on a keyspace whose key was checked for a passed deadline (see `run`).
pub open spec fn lrange_cmd(s: Keyspace, a: Seq<Seq<u8>>) -> Option<(Keyspace, Reply)> {
    if a.len() < 4 {
        Some((s, arity_reply(a)))
    } else {
        match (i64_of_text(a[2]), i64_of_text(a[3])) {
            (Some(start), Some(stop)) => if !s.data.contains_key(a[1]) {
                Some((s, Reply::Array(Seq::empty())))
            } else {
                match s.data[a[1]] {
                    Item::List(l) => {
                        let (lo, hi) = lrange_bounds(start as int, stop as int, (l.len() as i64) as int);
                        Some((s, Reply::Array(bulks(range_items(l, lo, hi)))))
                    },
                    _ => Some((s, wrongtype_reply())),
                }
            },
            _ => Some((s, not_int_reply())),
        }
    }
}

// ---- hashes ----

/// The hash after the first `p` field/value pairs of an `HSET`, and how many fields were new.
pub open spec fn hset_fields(h: Map<Seq<u8>, Seq<u8>>, a: Seq<Seq<u8>>, p: nat) -> (Map<Seq<u8>, Seq<u8>>, int)
    decreases p,
{
    if p == 0 {
        (h, 0)
    } else {
        let (h1, c) = hset_fields(h, a, (p - 1) as nat);
        let f = a[2 + 2 * (p - 1)];
        (h1.insert(f, a[3 + 2 * (p - 1)]), if h1.contains_key(f) { c } else { c + 1 })
    }
}

/// `HSET` on a keyspace whose key was checked for a passed deadline (see `run`).
pub open spec fn hset_cmd(s: Keyspace, a: Seq<Seq<u8>>) -> Option<(Keyspace, Reply)> {
    if a.len() < 4 {
        Some((s, arity_reply(a)))
    } else if a.len() % 2 != 0 {
        Some((s, Reply::Error("ERR wrong number of arguments for 'hset'"@)))
    } else {
        let pairs = ((a.len() - 2) / 2) as nat;
        if !s.data.contains_key(a[1]) {
            let (h, c) = hset_fields(Map::empty(), a, pairs);
            Some((with_data(s, s.data.insert(a[1], Item::Hash(h))), count_reply(c)))
        } else {
            match s.data[a[1]] {
                Item::Hash(h0) => {
                    let (h, c) = hset_fields(h0, a, pairs);
                    Some((with_data(s, s.data.insert(a[1], Item::Hash(h))), count_reply(c)))
                },
                _ => Some((s, wrongtype_reply())),
            }
        }
    }
}

/// `HGET` on a keyspace whose key was checked for a passed deadline (see `run`).
pub open spec fn hget_cmd(s: Keyspace, a: Seq<Seq<u8>>) -> Option<(Keyspace, Reply)> {
    if a.len() < 3 {
        Some((s, arity_reply(a)))
    } else if !s.data.contains_key(a[1]) {
        Some((s, Reply::Null))
    } else {
        match s.data[a[1]] {
            Item::Hash(h) => Some((s, if h.contains_key(a[2]) { Reply::Bulk(h[a[2]]) } else { Reply::Null })),
            _ => Some((s, wrongtype_reply())),
        }
    }
}

/// The hash after removing the first `n` fields from position 2 on, and how many were there.
pub open spec fn hdel_fields(h: Map<Seq<u8>, Seq<u8>>, a: Seq<Seq<u8>>, n: nat) -> (Map<Seq<u8>, Seq<u8>>, int)
    decreases n,
{
    if n == 0 {
        (h, 0)
    } else {
        let (h1, c) = hdel_fields(h, a, (n - 1) as nat);
        let f = a[1 + n as int];
        (h1.remove(f), if h1.contains_key(f) { c + 1 } else { c })
    }
}

/// `HDEL` on a keyspace whose key was checked for a passed deadline (see `run`).
pub open spec fn hdel_cmd(s: Keyspace, a: Seq<Seq<u8>>) -> Option<(Keyspace, Reply)> {
    if a.len() < 3 {
        Some((s, arity_reply(a)))
    } else if !s.data.contains_key(a[1]) {
        Some((s, Reply::Int(0)))
    } else {
        match s.data[a[1]] {
            Item::Hash(h0) => {
                let (h, c) = hdel_fields(h0, a, (a.len() - 2) as nat);
                Some((with_data(s, s.data.insert(a[1], Item::Hash(h))), count_reply(c)))
            },
            _ => Some((s, wrongtype_reply())),
        }
    }
}

/// `r` lists each field of `h` once, each followed by its value, in some order.
pub open spec fn lists_pairs(r: Reply, h: Map<Seq<u8>, Seq<u8>>) -> bool {
    &&& r is Array
    &&& r->Array_0.len() == 2 * h.len()
    &&& forall|i: int| 0 <= i < h.len() ==> {
        &&& #[trigger] r->Array_0[2 * i] is Bulk
        &&& h.contains_key(r->Array_0[2 * i]->Bulk_0)
        &&& r->Array_0[2 * i + 1] == Reply::Bulk(h[r->Array_0[2 * i]->Bulk_0])
    }
    &&& forall|i: int, j: int| 0 <= i < j < h.len() ==> #[trigger] r->Array_0[2 * i] != #[trigger] r->Array_0[2 * j]
}

/// What `HGETALL` may answer for `key`, on a keyspace whose key was checked for a passed deadline.
pub open spec fn hgetall_reply(s: Keyspace, key: Seq<u8>, r: Reply) -> bool {
    if !s.data.contains_key(key) {
        r == Reply::Array(Seq::empty())
    } else {
        match s.data[key] {
            Item::Hash(h) => lists_pairs(r, h),
            _ => r == wrongtype_reply(),
        }
    }
}

/// `HLEN` on a keyspace whose key was checked for a passed deadline (see `run`).
pub open spec fn hlen_cmd(s: Keyspace, a: Seq<Seq<u8>>) -> Option<(Keyspace, Reply)> {
    if a.len() < 2 {
        None
    } else if !s.data.contains_key(a[1]) {
        Some((s, Reply::Int(0)))
    } else {
        match s.data[a[1]] {
            Item::Hash(h) => Some((s, count_reply(h.len() as int))),
            _ => Some((s, wrongtype_reply())),
        }
    }
}

// ---- server ----

/// The text `INFO` answers with.
pub open spec fn info_text(s: Keyspace) -> Seq<u8> {
    encode_utf8("# rudis\r\nkeys:"@) + decimal_text(s.data.len() as int) + encode_utf8("\r\ncommands_processed:"@)
        + decimal_text(s.cmds as int) + encode_utf8("\r\n"@)
}

/// The outcome of every command but `KEYS` and `HGETALL`, whose replies list in an order the
/// keyspace leaves open; `None` where the command cannot complete (a missing argument it
/// reads, or a number that leaves 64 bits). Every command that reads or writes a key first
/// drops it when its deadline has come (lazy expiry).
pub open spec fn run(s: Keyspace, name: Seq<char>, a: Seq<Seq<u8>>, now: u64) -> Option<(Keyspace, Reply)> {
    if name == "PING"@ {
        Some((s, if a.len() > 1 { Reply::Bulk(a[1]) } else { Reply::Simple("PONG"@) }))
    } else if name == "ECHO"@ {
        Some((s, if a.len() < 2 { arity_reply(a) } else { Reply::Bulk(a[1]) }))
    } else if name == "SET"@ {
        set_cmd(s, a, now)
    } else if name == "GET"@ {
        get_cmd(s, a, now)
    } else if name == "DEL"@ {
        del_cmd(s, a, now)
    } else if name == "EXISTS"@ {
        exists_cmd(s, a, now)
    } else if name == "INCR"@ {
        incr_cmd(s, a, now, 1)
    } else if name == "DECR"@ {
        incr_cmd(s, a, now, -1)
    } else if name == "INCRBY"@ {
        incrby_cmd(s, a, now, false)
    } else if name == "DECRBY"@ {
        incrby_cmd(s, a, now, true)
    } else if name == "APPEND"@ {
        append_cmd(s, a, now)
    } else if name == "STRLEN"@ {
        strlen_cmd(s, a, now)
    } else if name == "TYPE"@ {
        type_cmd(checked(s, a, now, 2), a)
    } else if name == "EXPIRE"@ {
        expire_cmd(s, a, now)
    } else if name == "TTL"@ {
        ttl_cmd(s, a, now)
    } else if name == "PERSIST"@ {
        persist_cmd(checked(s, a, now, 2), a)
    } else if name == "DBSIZE"@ {
        Some((s, count_reply(s.data.len() as int)))
    } else if name == "FLUSHALL"@ || name == "FLUSHDB"@ {
        Some((Keyspace { data: Map::empty(), expires: Map::empty(), ..s }, ok_reply()))
    } else if name == "LPUSH"@ {
        push_cmd(s, a, now, true)
    } else if name == "RPUSH"@ {
        push_cmd(s, a, now, false)
    } else if name == "LPOP"@ {
        pop_cmd(s, a, now, true)
    } else if name == "RPOP"@ {
        pop_cmd(s, a, now, false)
    } else if name == "LLEN"@ {
        llen_cmd(expired(s, llen_key(a), now), a)
    } else if name == "LRANGE"@ {
        lrange_cmd(checked(s, a, now, 4), a)
    } else if name == "HSET"@ {
        hset_cmd(checked(s, a, now, 4), a)
    } else if name == "HGET"@ {
        hget_cmd(checked(s, a, now, 3), a)
    } else if name == "HDEL"@ {
        hdel_cmd(checked(s, a, now, 3), a)
    } else if name == "HLEN"@ {
        hlen_cmd(checked(s, a, now, 2), a)
    } else if name == "COMMAND"@ || name == "CONFIG"@ || name == "CLIENT"@ {
        Some((s, Reply::Array(Seq::empty())))
    } else if name == "QUIT"@ {
        Some((s, ok_reply()))
    } else if name == "INFO"@ {
        Some((s, Reply::Bulk(info_text(s))))
    } else {
        Some((s, Reply::Error("ERR unknown command '"@ + name + "'"@)))
    }
}

/// True when the command named `name` with arguments `a` completes on `s` at `now`; on other
/// inputs the command would stop with a panic (a missing argument it reads, a number that leaves
/// 64 bits, a counter at its limit).
pub open spec fn completes(s: Keyspace, name: Seq<char>, a: Seq<Seq<u8>>, now: u64) -> bool {
    &&& s.cmds < u64::MAX
    &&& if name == "KEYS"@ {
        true
    } else if name == "HGETALL"@ {
        a.len() >= 2
    } else {
        run(bump(s), name, a, now) is Some
    }
}

/// `s2` and `r` are what the command named `name` with arguments `a` leaves and answers on
/// `s` at `now`.
pub open spec fn outcome(s: Keyspace, name: Seq<char>, a: Seq<Seq<u8>>, now: u64, s2: Keyspace, r: Reply) -> bool {
    let s1 = bump(s);
    if name == "KEYS"@ {
        s2 == s1 && lists_keys(r, matching_keys(s1, now, keys_pattern(a)))
    } else if name == "HGETALL"@ {
        s2 == expired(s1, a[1], now) && hgetall_reply(s2, a[1], r)
    } else {
        run(s1, name, a, now) == Some((s2, r))
    }
}

}
