use vstd::prelude::*;
use vstd::utf8::{encode_utf8, encode_utf8_decode_utf8};
use vstd::string::StringSliceAdditionalSpecFns;
use std::collections::VecDeque;
use crate::resp::{Value, Reply, byte_strings, copy_bytes};
use crate::semantics::{command_name, checked, is_live, llen_key, run, completes, outcome, bump, info_text, hset_cmd, hset_fields, hget_cmd, hdel_cmd, hdel_fields, hgetall_reply, lists_pairs, hlen_cmd, push_cmd, pushed, pop_cmd, llen_cmd, lrange_cmd, lrange_bounds, range_items, bulks, del_cmd, del_keys, exists_cmd, exists_keys, without_key, type_cmd, expire_cmd, with_expires, ttl_cmd, persist_cmd, glob_from, glob_matches, keys_pattern, lists_keys, matching_keys, get_cmd, incr_cmd, incrby_cmd, append_cmd, strlen_cmd, with_data, count_reply, current_int, set_cmd, set_options, option_pairs, arity_reply, wrongtype_reply, not_int_reply, clamp0, deadline};
use crate::store::{Entry, Item, Keyspace, Store, expired, list_items};
use crate::table::{Table, bytes_eq};
use crate::laws::{deadlines_on_live_keys, law_counts_each_command, law_deadlines_stay_on_live_keys};
use crate::text::{parse_int, utf8_lossy, upper_case, lower_case, i64_text, u64_text, i64_of_text, decimal_text};

verus! {

/// True when the two texts are the same.
fn same_text(a: &str, b: &str) -> (same: bool)
    ensures
        same == (a@ == b@),
{
    proof {
        encode_utf8_decode_utf8(a@);
        encode_utf8_decode_utf8(b@);
    }
    bytes_eq(a.as_bytes(), b.as_bytes())
}

/// The error for too few arguments, when `a` holds fewer than `n`.
fn arity(a: &[Vec<u8>], n: usize) -> (r: Option<Value>)
    requires
        a@.len() >= 1,
    ensures
        match r {
            Some(v) => a@.len() < n && v@ == arity_reply(byte_strings(a@)),
            None => a@.len() >= n,
        },
{
    if a.len() < n {
        let name = utf8_lossy(a[0].as_slice());
        let lower = lower_case(name.as_str());
        let mut msg = String::from_str("ERR wrong number of arguments for '");
        msg.append(lower.as_str());
        msg.append("'");
        Some(Value::Error(msg))
    } else {
        None
    }
}

fn wrongtype() -> (v: Value)
    ensures
        v@ == wrongtype_reply(),
{
    Value::err("WRONGTYPE Operation against a key holding the wrong kind of value")
}

fn not_int() -> (v: Value)
    ensures
        v@ == not_int_reply(),
{
    Value::err("ERR value is not an integer or out of range")
}

proof fn lemma_set_options_prefix(e: Map<Seq<u8>, u64>, a: Seq<Seq<u8>>, now: u64, p: nat, q: nat)
    requires
        p <= q,
        set_options(e, a, now, q) is Some,
    ensures
        set_options(e, a, now, p) is Some,
    decreases q - p,
{
    if p < q {
        lemma_set_options_prefix(e, a, now, (p + 1) as nat, q);
    }
}

fn set(store: &mut Store, a: &[Vec<u8>], now: u64) -> (r: Value)
    requires
        a@.len() >= 1,
        set_cmd(old(store)@, byte_strings(a@), now) is Some,
    ensures
        set_cmd(old(store)@, byte_strings(a@), now) == Some((final(store)@, r@)),
{
    let ghost args = byte_strings(a@);
    if let Some(e) = arity(a, 3) {
        return e;
    }
    store.data.insert(copy_bytes(a[1].as_slice()), Entry::Str(copy_bytes(a[2].as_slice())));
    store.expires.remove(a[1].as_slice());
    let ghost e0 = store.expires@;
    let ghost total = option_pairs(a@.len() as int);
    let mut i: usize = 3;
    let ghost mut p: nat = 0;
    while i < a.len() - 1
        invariant
            a@.len() >= 3,
            args == byte_strings(a@),
            i == 3 + 2 * p,
            i <= a@.len(),
            p <= total,
            total == option_pairs(a@.len() as int),
            set_options(e0, args, now, total) is Some,
            set_options(e0, args, now, p) == Some(store.expires@),
            store.data@ == old(store)@.data.insert(args[1], Item::Str(args[2])),
            store.cmds == old(store).cmds,
            store.hits == old(store).hits,
            store.misses == old(store).misses,
        decreases a@.len() - i,
    {
        proof {
            lemma_set_options_prefix(e0, args, now, p + 1, total);
        }
        let name = utf8_lossy(a[i].as_slice());
        let opt = upper_case(name.as_str());
        if let Some(n) = parse_int(a[i + 1].as_slice()) {
            let secs: u64 = if n < 0 { 0 } else { n as u64 };
            if same_text(opt.as_str(), "EX") {
                store.expires.insert(copy_bytes(a[1].as_slice()), now + secs * 1000);
            } else if same_text(opt.as_str(), "PX") {
                store.expires.insert(copy_bytes(a[1].as_slice()), now + secs);
            }
        }
        i = i + 2;
        proof {
            p = p + 1;
        }
    }
    proof {
        assert(p == total);
        assert(final(store)@ =~= Keyspace { data: old(store)@.data.insert(args[1], Item::Str(args[2])), expires: store.expires@, ..old(store)@ });
    }
    Value::ok()
}


/// The string `key` holds once its deadline is checked, or the wrong-type error.
fn get_str(store: &mut Store, key: &[u8], now: u64) -> (r: Result<Option<Vec<u8>>, Value>)
    ensures
        final(store)@ == expired(old(store)@, key@, now),
        match r {
            Ok(Some(b)) => final(store)@.data.contains_key(key@) && final(store)@.data[key@] == Item::Str(b@),
            Ok(None) => !final(store)@.data.contains_key(key@),
            Err(e) => final(store)@.data.contains_key(key@) && !(final(store)@.data[key@] is Str) && e@ == wrongtype_reply(),
        },
{
    store.expire_check(key, now);
    match store.data.get(key) {
        Some(Entry::Str(b)) => Ok(Some(copy_bytes(b.as_slice()))),
        Some(_) => Err(wrongtype()),
        None => Ok(None),
    }
}

fn get(store: &mut Store, a: &[Vec<u8>], now: u64) -> (r: Value)
    requires
        a@.len() >= 1,
        get_cmd(old(store)@, byte_strings(a@), now) is Some,
    ensures
        get_cmd(old(store)@, byte_strings(a@), now) == Some((final(store)@, r@)),
{
    if let Some(e) = arity(a, 2) {
        return e;
    }
    match get_str(store, a[1].as_slice(), now) {
        Ok(Some(b)) => {
            store.hits = store.hits + 1;
            Value::Bulk(b)
        },
        Ok(None) => {
            store.misses = store.misses + 1;
            Value::Null
        },
        Err(e) => e,
    }
}

fn incr_by(store: &mut Store, a: &[Vec<u8>], now: u64, delta: i64) -> (r: Value)
    requires
        a@.len() >= 1,
        incr_cmd(old(store)@, byte_strings(a@), now, delta as int) is Some,
    ensures
        incr_cmd(old(store)@, byte_strings(a@), now, delta as int) == Some((final(store)@, r@)),
{
    if let Some(e) = arity(a, 2) {
        return e;
    }
    store.expire_check(a[1].as_slice(), now);
    let cur: i64 = match store.data.get(a[1].as_slice()) {
        Some(Entry::Str(b)) => match parse_int(b.as_slice()) {
            Some(n) => n,
            None => {
                return not_int();
            },
        },
        Some(_) => {
            return wrongtype();
        },
        None => 0,
    };
    let n = cur + delta;
    store.data.insert(copy_bytes(a[1].as_slice()), Entry::Str(i64_text(n)));
    Value::Int(n)
}

/// `INCRBY` and, with `down`, `DECRBY`.
fn incr_by_arg(store: &mut Store, a: &[Vec<u8>], now: u64, down: bool) -> (r: Value)
    requires
        a@.len() >= 1,
        incrby_cmd(old(store)@, byte_strings(a@), now, down) is Some,
    ensures
        incrby_cmd(old(store)@, byte_strings(a@), now, down) == Some((final(store)@, r@)),
{
    if let Some(e) = arity(a, 3) {
        return e;
    }
    match parse_int(a[2].as_slice()) {
        Some(by) => incr_by(store, a, now, if down { -by } else { by }),
        None => not_int(),
    }
}

fn append(store: &mut Store, a: &[Vec<u8>], now: u64) -> (r: Value)
    requires
        a@.len() >= 1,
    ensures
        append_cmd(old(store)@, byte_strings(a@), now) == Some((final(store)@, r@)),
{
    let ghost args = byte_strings(a@);
    if let Some(e) = arity(a, 3) {
        return e;
    }
    store.expire_check(a[1].as_slice(), now);
    let ghost s1 = store@;
    match store.data.remove(a[1].as_slice()) {
        None => {
            let v = copy_bytes(a[2].as_slice());
            let n = v.len();
            store.data.insert(copy_bytes(a[1].as_slice()), Entry::Str(v));
            Value::Int(n as i64)
        },
        Some(Entry::Str(mut b)) => {
            crate::resp::push_bytes(&mut b, a[2].as_slice());
            let n = b.len();
            store.data.insert(copy_bytes(a[1].as_slice()), Entry::Str(b));
            proof {
                assert(store.data@ =~= s1.data.insert(args[1], Item::Str(b@)));
            }
            Value::Int(n as i64)
        },
        Some(other) => {
            store.data.insert(copy_bytes(a[1].as_slice()), other);
            proof {
                assert(store.data@ =~= s1.data);
            }
            wrongtype()
        },
    }
}

fn strlen(store: &mut Store, a: &[Vec<u8>], now: u64) -> (r: Value)
    requires
        strlen_cmd(old(store)@, byte_strings(a@), now) is Some,
    ensures
        strlen_cmd(old(store)@, byte_strings(a@), now) == Some((final(store)@, r@)),
{
    match get_str(store, a[1].as_slice(), now) {
        Ok(Some(b)) => Value::Int(b.len() as i64),
        Ok(None) => Value::Int(0),
        Err(e) => e,
    }
}


fn del(store: &mut Store, a: &[Vec<u8>], now: u64) -> (r: Value)
    requires
        a@.len() >= 1,
    ensures
        del_cmd(old(store)@, byte_strings(a@), now) == Some((final(store)@, r@)),
{
    let ghost args = byte_strings(a@);
    let mut n: usize = 0;
    let mut i: usize = 1;
    while i < a.len()
        invariant
            1 <= i <= a@.len(),
            n < i,
            args == byte_strings(a@),
            (store@, n as int) == del_keys(old(store)@, args, now, (i - 1) as nat),
        decreases a@.len() - i,
    {
        store.expire_check(a[i].as_slice(), now);
        if store.data.remove(a[i].as_slice()).is_some() {
            store.expires.remove(a[i].as_slice());
            n = n + 1;
        }
        i = i + 1;
    }
    Value::Int(n as i64)
}

fn exists_count(store: &mut Store, a: &[Vec<u8>], now: u64) -> (r: Value)
    requires
        a@.len() >= 1,
    ensures
        exists_cmd(old(store)@, byte_strings(a@), now) == Some((final(store)@, r@)),
{
    let ghost args = byte_strings(a@);
    let mut n: usize = 0;
    let mut i: usize = 1;
    while i < a.len()
        invariant
            1 <= i <= a@.len(),
            n < i,
            args == byte_strings(a@),
            (store@, n as int) == exists_keys(old(store)@, args, now, (i - 1) as nat),
        decreases a@.len() - i,
    {
        store.expire_check(a[i].as_slice(), now);
        if store.data.contains_key(a[i].as_slice()) {
            n = n + 1;
        }
        i = i + 1;
    }
    Value::Int(n as i64)
}

fn expire(store: &mut Store, a: &[Vec<u8>], now: u64) -> (r: Value)
    requires
        a@.len() >= 1,
        expire_cmd(old(store)@, byte_strings(a@), now) is Some,
    ensures
        expire_cmd(old(store)@, byte_strings(a@), now) == Some((final(store)@, r@)),
{
    if let Some(e) = arity(a, 3) {
        return e;
    }
    let secs = match parse_int(a[2].as_slice()) {
        Some(n) => n,
        None => {
            return not_int();
        },
    };
    store.expire_check(a[1].as_slice(), now);
    if store.data.contains_key(a[1].as_slice()) {
        let s: u64 = if secs < 0 { 0 } else { secs as u64 };
        store.expires.insert(copy_bytes(a[1].as_slice()), now + s * 1000);
        Value::Int(1)
    } else {
        Value::Int(0)
    }
}

fn ttl(store: &mut Store, a: &[Vec<u8>], now: u64) -> (r: Value)
    requires
        ttl_cmd(old(store)@, byte_strings(a@), now) is Some,
    ensures
        ttl_cmd(old(store)@, byte_strings(a@), now) == Some((final(store)@, r@)),
{
    store.expire_check(a[1].as_slice(), now);
    if !store.data.contains_key(a[1].as_slice()) {
        Value::Int(-2)
    } else {
        match store.expires.get(a[1].as_slice()) {
            Some(dl) => Value::Int((dl.saturating_sub(now) / 1000) as i64),
            None => Value::Int(-1),
        }
    }
}

fn persist(store: &mut Store, a: &[Vec<u8>], now: u64) -> (r: Value)
    requires
        a@.len() >= 2,
    ensures
        persist_cmd(checked(old(store)@, byte_strings(a@), now, 2), byte_strings(a@)) == Some((final(store)@, r@)),
{
    store.expire_check(a[1].as_slice(), now);
    let had = store.expires.remove(a[1].as_slice()).is_some();
    Value::Int(if had { 1 } else { 0 })
}

fn glob_at(pat: &[u8], s: &[u8], i: usize, j: usize) -> (m: bool)
    requires
        i <= pat@.len(),
        j <= s@.len(),
    ensures
        m == glob_from(pat@, s@, i as int, j as int),
    decreases pat@.len() - i + s@.len() - j,
{
    if i == pat.len() {
        j == s.len()
    } else if pat[i] == 42u8 {
        glob_at(pat, s, i + 1, j) || (j < s.len() && glob_at(pat, s, i, j + 1))
    } else if j == s.len() {
        false
    } else if pat[i] == 63u8 || pat[i] == s[j] {
        glob_at(pat, s, i + 1, j + 1)
    } else {
        false
    }
}

/// Whether `s` matches the glob pattern `pat` (`*` any run of bytes, `?` any one byte).
fn glob(pat: &[u8], s: &[u8]) -> (m: bool)
    ensures
        m == glob_matches(pat@, s@),
{
    glob_at(pat, s, 0, 0)
}

/// The keys that match the pattern, as bulk replies.
fn keys(store: &Store, a: &[Vec<u8>], now: u64) -> (r: Value)
    requires
        a@.len() >= 1,
    ensures
        lists_keys(r@, matching_keys(store@, now, keys_pattern(byte_strings(a@)))),
{
    let star: Vec<u8> = vec![42u8];
    let pat: &[u8] = if a.len() > 1 { a[1].as_slice() } else { star.as_slice() };
    proof {
        assert(pat@ == keys_pattern(byte_strings(a@))) by {
            if a@.len() <= 1 { assert(star@ =~= seq![42u8]); }
        }
    }
    let n = store.data.len();
    let mut out: Vec<Value> = Vec::new();
    let ghost mut idx: Seq<int> = Seq::empty();
    let mut i: usize = 0;
    while i < n
        invariant
            i <= n,
            n == store.data.size(),
            forall|j: int| 0 <= j < n ==> #[trigger] store@.data.contains_key(store.data.key_at(j)),
            forall|x: int, y: int| 0 <= x < y < n ==> #[trigger] store.data.key_at(x) != #[trigger] store.data.key_at(y),
            idx.len() == out@.len(),
            forall|x: int| 0 <= x < idx.len() ==> 0 <= #[trigger] idx[x] < i && glob_matches(pat@, store.data.key_at(idx[x]))
                && is_live(store@, store.data.key_at(idx[x]), now)
                && out@[x]@ == Reply::Bulk(store.data.key_at(idx[x])),
            forall|x: int, y: int| 0 <= x < y < idx.len() ==> #[trigger] idx[x] < #[trigger] idx[y],
            forall|j: int| 0 <= j < i && glob_matches(pat@, #[trigger] store.data.key_at(j)) && is_live(store@, store.data.key_at(j), now)
                ==> exists|x: int| 0 <= x < idx.len() && idx[x] == j,
        decreases n - i,
    {
        let k = store.data.key(i);
        let live = match store.expires.get(k.as_slice()) {
            Some(d) => now < *d,
            None => true,
        };
        proof {
            assert(store@.data.contains_key(store.data.key_at(i as int)));
            assert(live == is_live(store@, k@, now));
        }
        if live && glob(pat, k.as_slice()) {
            out.push(Value::Bulk(copy_bytes(k.as_slice())));
            proof {
                let old_idx = idx;
                idx = idx.push(i as int);
                assert forall|j: int| 0 <= j < i + 1 && glob_matches(pat@, #[trigger] store.data.key_at(j)) && is_live(store@, store.data.key_at(j), now) implies exists|x: int| 0 <= x < idx.len() && idx[x] == j by {
                    if j < i {
                        let x = choose|x: int| 0 <= x < old_idx.len() && old_idx[x] == j;
                        assert(idx[x] == j);
                    } else {
                        assert(idx[old_idx.len() as int] == j);
                    }
                }
            }
        }
        i = i + 1;
    }
    let r = Value::Array(out);
    proof {
        let items = r@->Array_0;
        assert(items.len() == out@.len());
        assert forall|x: int| 0 <= x < items.len() implies #[trigger] items[x] == Reply::Bulk(store.data.key_at(idx[x])) by {}
        assert forall|x: int, y: int| 0 <= x < y < items.len() implies #[trigger] items[x] != #[trigger] items[y] by {
            assert(idx[x] < idx[y]);
            assert(store.data.key_at(idx[x]) != store.data.key_at(idx[y]));
        }
        assert forall|k: Seq<u8>| #[trigger] matching_keys(store@, now, pat@).contains(k) <==> exists|x: int| 0 <= x < items.len() && #[trigger] items[x] == Reply::Bulk(k) by {
            if matching_keys(store@, now, pat@).contains(k) {
                let j = choose|j: int| 0 <= j < n && #[trigger] store.data.key_at(j) == k;
                let x = choose|x: int| 0 <= x < idx.len() && idx[x] == j;
                assert(items[x] == Reply::Bulk(k));
            }
            if exists|x: int| 0 <= x < items.len() && #[trigger] items[x] == Reply::Bulk(k) {
                let x = choose|x: int| 0 <= x < items.len() && #[trigger] items[x] == Reply::Bulk(k);
                assert(items[x] == Reply::Bulk(store.data.key_at(idx[x])));
                assert(store@.data.contains_key(store.data.key_at(idx[x])));
            }
        }
    }
    r
}


proof fn lemma_pushed_step(l0: Seq<Seq<u8>>, vals: Seq<Seq<u8>>, v: Seq<u8>, left: bool)
    ensures
        pushed(l0, vals.push(v), left) == if left { seq![v] + pushed(l0, vals, left) } else { pushed(l0, vals, left).push(v) },
{
    if left {
        assert(vals.push(v).reverse() =~= seq![v] + vals.reverse());
        assert(pushed(l0, vals.push(v), left) =~= seq![v] + pushed(l0, vals, left));
    } else {
        assert(pushed(l0, vals.push(v), left) =~= pushed(l0, vals, left).push(v));
    }
}

/// `LPUSH` with `left`, else `RPUSH`.
fn push(store: &mut Store, a: &[Vec<u8>], now: u64, left: bool) -> (r: Value)
    requires
        a@.len() >= 1,
    ensures
        push_cmd(old(store)@, byte_strings(a@), now, left) == Some((final(store)@, r@)),
{
    let ghost args = byte_strings(a@);
    if let Some(e) = arity(a, 3) {
        return e;
    }
    store.expire_check(a[1].as_slice(), now);
    let ghost s1 = store@;
    let mut l: VecDeque<Vec<u8>> = match store.data.remove(a[1].as_slice()) {
        None => VecDeque::new(),
        Some(Entry::List(l)) => l,
        Some(other) => {
            store.data.insert(copy_bytes(a[1].as_slice()), other);
            proof {
                assert(store.data@ =~= s1.data);
            }
            return wrongtype();
        },
    };
    let ghost l0 = list_items(l@);
    proof {
        assert(args.subrange(2, 2) =~= Seq::<Seq<u8>>::empty());
        assert(pushed(l0, Seq::empty(), left) =~= l0);
    }
    let mut i: usize = 2;
    while i < a.len()
        invariant
            2 <= i <= a@.len(),
            args == byte_strings(a@),
            list_items(l@) == pushed(l0, args.subrange(2, i as int), left),
        decreases a@.len() - i,
    {
        let v = copy_bytes(a[i].as_slice());
        let ghost before = l@;
        proof {
            lemma_pushed_step(l0, args.subrange(2, i as int), v@, left);
            assert(args.subrange(2, i + 1) =~= args.subrange(2, i as int).push(v@));
        }
        if left {
            l.push_front(v);
            proof { assert(list_items(l@) =~= seq![v@] + list_items(before)); }
        } else {
            l.push_back(v);
            proof { assert(list_items(l@) =~= list_items(before).push(v@)); }
        }
        i = i + 1;
    }
    proof {
        assert(args.subrange(2, a@.len() as int) == args.subrange(2, args.len() as int));
    }
    let n = l.len();
    store.data.insert(copy_bytes(a[1].as_slice()), Entry::List(l));
    Value::Int(n as i64)
}

/// `LPOP` with `left`, else `RPOP`.
fn pop(store: &mut Store, a: &[Vec<u8>], now: u64, left: bool) -> (r: Value)
    requires
        a@.len() >= 1,
    ensures
        pop_cmd(old(store)@, byte_strings(a@), now, left) == Some((final(store)@, r@)),
{
    let ghost args = byte_strings(a@);
    if let Some(e) = arity(a, 2) {
        return e;
    }
    store.expire_check(a[1].as_slice(), now);
    let ghost s1 = store@;
    match store.data.remove(a[1].as_slice()) {
        None => Value::Null,
        Some(Entry::List(mut l)) => {
            let ghost before = list_items(l@);
            let v = if left { l.pop_front() } else { l.pop_back() };
            let ghost after = list_items(l@);
            store.data.insert(copy_bytes(a[1].as_slice()), Entry::List(l));
            match v {
                Some(b) => {
                    proof {
                        if left {
                            assert(after =~= before.drop_first());
                        } else {
                            assert(after =~= before.drop_last());
                        }
                    }
                    Value::Bulk(b)
                },
                None => {
                    proof {
                        assert(store.data@ =~= s1.data);
                    }
                    Value::Null
                },
            }
        },
        Some(other) => {
            store.data.insert(copy_bytes(a[1].as_slice()), other);
            proof {
                assert(store.data@ =~= s1.data);
            }
            wrongtype()
        },
    }
}

fn llen(store: &mut Store, a: &[Vec<u8>], now: u64) -> (r: Value)
    ensures
        llen_cmd(expired(old(store)@, llen_key(byte_strings(a@)), now), byte_strings(a@)) == Some((final(store)@, r@)),
{
    let none: Vec<u8> = Vec::new();
    let key: &[u8] = if a.len() > 1 { a[1].as_slice() } else { none.as_slice() };
    proof {
        if a@.len() <= 1 { assert(none@ =~= Seq::<u8>::empty()); }
    }
    store.expire_check(key, now);
    match store.data.get(key) {
        Some(Entry::List(l)) => Value::Int(l.len() as i64),
        Some(_) => wrongtype(),
        None => Value::Int(0),
    }
}

fn lrange(store: &mut Store, a: &[Vec<u8>], now: u64) -> (r: Value)
    requires
        a@.len() >= 1,
    ensures
        lrange_cmd(checked(old(store)@, byte_strings(a@), now, 4), byte_strings(a@)) == Some((final(store)@, r@)),
{
    let ghost args = byte_strings(a@);
    if a.len() >= 4 {
        store.expire_check(a[1].as_slice(), now);
    }
    if let Some(e) = arity(a, 4) {
        return e;
    }
    let (start, stop) = match (parse_int(a[2].as_slice()), parse_int(a[3].as_slice())) {
        (Some(x), Some(y)) => (x, y),
        _ => {
            return not_int();
        },
    };
    match store.data.get(a[1].as_slice()) {
        Some(Entry::List(l)) => {
            let ghost items = list_items(l@);
            let len = l.len() as i64;
            let mut lo: i128 = start as i128;
            let mut hi: i128 = stop as i128;
            if lo < 0 {
                lo = lo + len as i128;
            }
            if hi < 0 {
                hi = hi + len as i128;
            }
            if lo < 0 {
                lo = 0;
            }
            if hi > len as i128 - 1 {
                hi = len as i128 - 1;
            }
            proof {
                assert((lo as int, hi as int) == lrange_bounds(start as int, stop as int, len as int));
            }
            let mut out: Vec<Value> = Vec::new();
            let mut i: i128 = lo;
            while i <= hi
                invariant
                    lo <= i <= hi + 1 || (i == lo && lo > hi),
                    0 <= lo,
                    hi < 0x8000_0000_0000_0000,
                    items == list_items(l@),
                    out@.len() == range_items(items, lo as int, i - 1).len(),
                    forall|x: int| 0 <= x < out@.len() ==> #[trigger] out@[x]@ == Reply::Bulk(range_items(items, lo as int, i - 1)[x]),
                decreases hi - i + 1,
            {
                let ghost before = out@;
                if (i as u64) < (l.len() as u64) {
                    out.push(Value::Bulk(copy_bytes(l[i as usize].as_slice())));
                }
                proof {
                    let prev = range_items(items, lo as int, i - 1);
                    assert(range_items(items, lo as int, i as int) == prev + if 0 <= i < items.len() { seq![items[i as int]] } else { Seq::<Seq<u8>>::empty() });
                    assert forall|x: int| 0 <= x < out@.len() implies #[trigger] out@[x]@ == Reply::Bulk(range_items(items, lo as int, i as int)[x]) by {
                        if x < before.len() {
                            assert(out@[x] == before[x]);
                        }
                    }
                }
                i = i + 1;
            }
            let r = Value::Array(out);
            proof {
                if lo > hi {
                    assert(range_items(items, lo as int, hi as int) == Seq::<Seq<u8>>::empty());
                    assert(range_items(items, lo as int, i - 1) == Seq::<Seq<u8>>::empty());
                } else {
                    assert(i - 1 == hi);
                }
                let rs = range_items(items, lo as int, hi as int);
                let got = r@->Array_0;
                assert(got.len() == out@.len());
                assert forall|x: int| 0 <= x < got.len() implies got[x] == bulks(rs)[x] by {
                    assert(got[x] == out@[x]@);
                }
                assert(got =~= bulks(rs));
            }
            r
        },
        Some(_) => wrongtype(),
        None => {
            let r = Value::Array(Vec::new());
            proof {
                assert(r@->Array_0 =~= Seq::<Reply>::empty());
            }
            r
        },
    }
}


fn hset(store: &mut Store, a: &[Vec<u8>], now: u64) -> (r: Value)
    requires
        a@.len() >= 1,
    ensures
        hset_cmd(checked(old(store)@, byte_strings(a@), now, 4), byte_strings(a@)) == Some((final(store)@, r@)),
{
    let ghost args = byte_strings(a@);
    if a.len() >= 4 {
        store.expire_check(a[1].as_slice(), now);
    }
    if a.len() < 4 || a.len() % 2 != 0 {
        return match arity(a, 4) {
            Some(e) => e,
            None => Value::err("ERR wrong number of arguments for 'hset'"),
        };
    }
    let ghost s0 = store@;
    let mut h: Table<Vec<u8>> = match store.data.remove(a[1].as_slice()) {
        None => Table::new(),
        Some(Entry::Hash(h)) => h,
        Some(other) => {
            store.data.insert(copy_bytes(a[1].as_slice()), other);
            proof {
                assert(store.data@ =~= s0.data);
            }
            return wrongtype();
        },
    };
    let ghost h0 = h@;
    let mut added: usize = 0;
    let mut i: usize = 2;
    let ghost mut p: nat = 0;
    while i < a.len() - 1
        invariant
            a@.len() >= 4,
            a@.len() % 2 == 0,
            args == byte_strings(a@),
            i == 2 + 2 * p,
            i <= a@.len(),
            added <= p,
            (h@, added as int) == hset_fields(h0, args, p),
        decreases a@.len() - i,
    {
        let was = h.contains_key(a[i].as_slice());
        h.insert(copy_bytes(a[i].as_slice()), copy_bytes(a[i + 1].as_slice()));
        if !was {
            added = added + 1;
        }
        i = i + 2;
        proof {
            p = p + 1;
        }
    }
    proof {
        assert(p == (a@.len() - 2) / 2);
    }
    store.data.insert(copy_bytes(a[1].as_slice()), Entry::Hash(h));
    Value::Int(added as i64)
}

fn hget(store: &mut Store, a: &[Vec<u8>], now: u64) -> (r: Value)
    requires
        a@.len() >= 1,
    ensures
        hget_cmd(checked(old(store)@, byte_strings(a@), now, 3), byte_strings(a@)) == Some((final(store)@, r@)),
{
    if a.len() >= 3 {
        store.expire_check(a[1].as_slice(), now);
    }
    if let Some(e) = arity(a, 3) {
        return e;
    }
    match store.data.get(a[1].as_slice()) {
        Some(Entry::Hash(h)) => match h.get(a[2].as_slice()) {
            Some(v) => Value::Bulk(copy_bytes(v.as_slice())),
            None => Value::Null,
        },
        Some(_) => wrongtype(),
        None => Value::Null,
    }
}

fn hdel(store: &mut Store, a: &[Vec<u8>], now: u64) -> (r: Value)
    requires
        a@.len() >= 1,
    ensures
        hdel_cmd(checked(old(store)@, byte_strings(a@), now, 3), byte_strings(a@)) == Some((final(store)@, r@)),
{
    let ghost args = byte_strings(a@);
    if a.len() >= 3 {
        store.expire_check(a[1].as_slice(), now);
    }
    if let Some(e) = arity(a, 3) {
        return e;
    }
    let ghost s0 = store@;
    match store.data.remove(a[1].as_slice()) {
        None => Value::Int(0),
        Some(Entry::Hash(mut h)) => {
            let ghost h0 = h@;
            let mut n: usize = 0;
            let mut i: usize = 2;
            while i < a.len()
                invariant
                    2 <= i <= a@.len(),
                    args == byte_strings(a@),
                    n <= i,
                    (h@, n as int) == hdel_fields(h0, args, (i - 2) as nat),
                decreases a@.len() - i,
            {
                if h.remove(a[i].as_slice()).is_some() {
                    n = n + 1;
                }
                i = i + 1;
            }
            store.data.insert(copy_bytes(a[1].as_slice()), Entry::Hash(h));
            Value::Int(n as i64)
        },
        Some(other) => {
            store.data.insert(copy_bytes(a[1].as_slice()), other);
            proof {
                assert(store.data@ =~= s0.data);
            }
            wrongtype()
        },
    }
}

/// Every field of the hash at `a[1]`, each followed by its value.
fn hgetall(store: &mut Store, a: &[Vec<u8>], now: u64) -> (r: Value)
    requires
        a@.len() >= 2,
    ensures
        final(store)@ == expired(old(store)@, byte_strings(a@)[1], now),
        hgetall_reply(final(store)@, byte_strings(a@)[1], r@),
{
    store.expire_check(a[1].as_slice(), now);
    match store.data.get(a[1].as_slice()) {
        Some(Entry::Hash(h)) => {
            let n = h.len();
            let mut out: Vec<Value> = Vec::new();
            let mut i: usize = 0;
            while i < n
                invariant
                    i <= n,
                    n == h.size(),
                    n == h@.len(),
                    forall|j: int| 0 <= j < n ==> #[trigger] h@.contains_key(h.key_at(j)),
                    out@.len() == 2 * i,
                    forall|j: int| 0 <= j < i ==> #[trigger] out@[2 * j]@ == Reply::Bulk(h.key_at(j))
                        && out@[2 * j + 1]@ == Reply::Bulk(h@[h.key_at(j)]),
                decreases n - i,
            {
                let ghost before = out@;
                out.push(Value::Bulk(copy_bytes(h.key(i).as_slice())));
                out.push(Value::Bulk(copy_bytes(h.value(i).as_slice())));
                proof {
                    assert forall|j: int| 0 <= j < i + 1 implies #[trigger] out@[2 * j]@ == Reply::Bulk(h.key_at(j))
                        && out@[2 * j + 1]@ == Reply::Bulk(h@[h.key_at(j)]) by {
                        if j < i {
                            assert(out@[2 * j] == before[2 * j]);
                            assert(out@[2 * j + 1] == before[2 * j + 1]);
                        }
                    }
                }
                i = i + 1;
            }
            let r = Value::Array(out);
            proof {
                let got = r@->Array_0;
                assert(got.len() == out@.len());
                assert forall|j: int| 0 <= j < h@.len() implies {
                    &&& #[trigger] got[2 * j] is Bulk
                    &&& h@.contains_key(got[2 * j]->Bulk_0)
                    &&& got[2 * j + 1] == Reply::Bulk(h@[got[2 * j]->Bulk_0])
                } by {
                    assert(got[2 * j] == out@[2 * j]@);
                    assert(got[2 * j + 1] == out@[2 * j + 1]@);
                }
                assert forall|x: int, y: int| 0 <= x < y < h@.len() implies #[trigger] got[2 * x] != #[trigger] got[2 * y] by {
                    assert(got[2 * x] == out@[2 * x]@);
                    assert(got[2 * y] == out@[2 * y]@);
                    assert(h.key_at(x) != h.key_at(y));
                }
            }
            r
        },
        Some(_) => wrongtype(),
        None => {
            let r = Value::Array(Vec::new());
            proof {
                assert(r@->Array_0 =~= Seq::<Reply>::empty());
            }
            r
        },
    }
}

fn hlen(store: &mut Store, a: &[Vec<u8>], now: u64) -> (r: Value)
    requires
        a@.len() >= 2,
    ensures
        hlen_cmd(checked(old(store)@, byte_strings(a@), now, 2), byte_strings(a@)) == Some((final(store)@, r@)),
{
    store.expire_check(a[1].as_slice(), now);
    match store.data.get(a[1].as_slice()) {
        Some(Entry::Hash(h)) => Value::Int(h.len() as i64),
        Some(_) => wrongtype(),
        None => Value::Int(0),
    }
}


/// The text `INFO` answers with.
fn info(store: &Store) -> (v: Vec<u8>)
    ensures
        v@ == info_text(store@),
{
    let mut out: Vec<u8> = Vec::new();
    crate::resp::push_bytes(&mut out, "# rudis\r\nkeys:".as_bytes());
    let keys = u64_text(store.data.len() as u64);
    crate::resp::push_bytes(&mut out, keys.as_slice());
    crate::resp::push_bytes(&mut out, "\r\ncommands_processed:".as_bytes());
    let cmds = u64_text(store.cmds);
    crate::resp::push_bytes(&mut out, cmds.as_slice());
    crate::resp::push_bytes(&mut out, "\r\n".as_bytes());
    out
}

/// Runs the command named `name` (its first argument, already read and upper-cased) on the
/// keyspace at time `now` (unix ms) and gives its reply.
pub fn dispatch_command(store: &mut Store, name: &str, args: &[Vec<u8>], now: u64) -> (r: Value)
    requires
        args@.len() >= 1,
        completes(old(store)@, name@, byte_strings(args@), now),
    ensures
        outcome(old(store)@, name@, byte_strings(args@), now, final(store)@, r@),
        final(store)@.cmds == old(store)@.cmds + 1,
        deadlines_on_live_keys(old(store)@) ==> deadlines_on_live_keys(final(store)@),
{
    let ghost before = store@;
    let r = run_command(store, name, args, now);
    proof {
        law_counts_each_command(before, name@, byte_strings(args@), now, store@, r@);
        if deadlines_on_live_keys(before) {
            law_deadlines_stay_on_live_keys(before, name@, byte_strings(args@), now, store@, r@);
        }
    }
    r
}

/// Runs the command named `name` on the keyspace: the body of `dispatch_command`.
fn run_command(store: &mut Store, name: &str, args: &[Vec<u8>], now: u64) -> (r: Value)
    requires
        args@.len() >= 1,
        completes(old(store)@, name@, byte_strings(args@), now),
    ensures
        outcome(old(store)@, name@, byte_strings(args@), now, final(store)@, r@),
{
    store.cmds = store.cmds + 1;
    let a = args;
    if same_text(name, "KEYS") {
        keys(store, a, now)
    } else if same_text(name, "HGETALL") {
        hgetall(store, a, now)
    } else if same_text(name, "PING") {
        if a.len() > 1 {
            Value::Bulk(copy_bytes(a[1].as_slice()))
        } else {
            Value::Simple(String::from_str("PONG"))
        }
    } else if same_text(name, "ECHO") {
        match arity(a, 2) {
            Some(e) => e,
            None => Value::Bulk(copy_bytes(a[1].as_slice())),
        }
    } else if same_text(name, "SET") {
        set(store, a, now)
    } else if same_text(name, "GET") {
        get(store, a, now)
    } else if same_text(name, "DEL") {
        del(store, a, now)
    } else if same_text(name, "EXISTS") {
        exists_count(store, a, now)
    } else if same_text(name, "INCR") {
        incr_by(store, a, now, 1)
    } else if same_text(name, "DECR") {
        incr_by(store, a, now, -1)
    } else if same_text(name, "INCRBY") {
        incr_by_arg(store, a, now, false)
    } else if same_text(name, "DECRBY") {
        incr_by_arg(store, a, now, true)
    } else if same_text(name, "APPEND") {
        append(store, a, now)
    } else if same_text(name, "STRLEN") {
        strlen(store, a, now)
    } else if same_text(name, "TYPE") {
        store.expire_check(a[1].as_slice(), now);
        Value::Simple(String::from_str(store.key_type(a[1].as_slice())))
    } else if same_text(name, "EXPIRE") {
        expire(store, a, now)
    } else if same_text(name, "TTL") {
        ttl(store, a, now)
    } else if same_text(name, "PERSIST") {
        persist(store, a, now)
    } else if same_text(name, "DBSIZE") {
        Value::Int(store.data.len() as i64)
    } else if same_text(name, "FLUSHALL") || same_text(name, "FLUSHDB") {
        store.data.clear();
        store.expires.clear();
        Value::ok()
    } else if same_text(name, "LPUSH") {
        push(store, a, now, true)
    } else if same_text(name, "RPUSH") {
        push(store, a, now, false)
    } else if same_text(name, "LPOP") {
        pop(store, a, now, true)
    } else if same_text(name, "RPOP") {
        pop(store, a, now, false)
    } else if same_text(name, "LLEN") {
        llen(store, a, now)
    } else if same_text(name, "LRANGE") {
        lrange(store, a, now)
    } else if same_text(name, "HSET") {
        hset(store, a, now)
    } else if same_text(name, "HGET") {
        hget(store, a, now)
    } else if same_text(name, "HDEL") {
        hdel(store, a, now)
    } else if same_text(name, "HLEN") {
        hlen(store, a, now)
    } else if same_text(name, "COMMAND") || same_text(name, "CONFIG") || same_text(name, "CLIENT") {
        let r = Value::Array(Vec::new());
        proof {
            assert(r@->Array_0 =~= Seq::<Reply>::empty());
        }
        r
    } else if same_text(name, "QUIT") {
        Value::ok()
    } else if same_text(name, "INFO") {
        Value::Bulk(info(store))
    } else {
        let mut msg = String::from_str("ERR unknown command '");
        msg.append(name);
        msg.append("'");
        Value::Error(msg)
    }
}


/// What `key` holds once its deadline is checked at `now`, without dropping anything.
fn live_entry<'a>(store: &'a Store, key: &[u8], now: u64) -> (r: Option<&'a Entry>)
    ensures
        match r {
            Some(e) => expired(store@, key@, now).data.contains_key(key@) && e@ == expired(store@, key@, now).data[key@],
            None => !expired(store@, key@, now).data.contains_key(key@),
        },
{
    if let Some(d) = store.expires.get(key) {
        if now >= *d {
            return None;
        }
    }
    store.data.get(key)
}

/// Whether adding `delta` to what `key` holds stays within 64 bits.
fn incr_fits(store: &Store, key: &[u8], now: u64, delta: i64) -> (ok: bool)
    ensures
        ok == match current_int(expired(store@, key@, now), key@) {
            Ok(c) => i64::MIN <= c + delta <= i64::MAX,
            Err(_) => true,
        },
{
    match live_entry(store, key, now) {
        Some(Entry::Str(b)) => match parse_int(b.as_slice()) {
            Some(n) => n.checked_add(delta).is_some(),
            None => true,
        },
        Some(_) => true,
        None => true,
    }
}

/// Whether `INCRBY` (or, with `down`, `DECRBY`) stays within 64 bits.
fn incrby_fits(store: &Store, a: &[Vec<u8>], now: u64, down: bool) -> (ok: bool)
    requires
        a@.len() >= 1,
    ensures
        ok == incrby_cmd(bump(store@), byte_strings(a@), now, down) is Some,
{
    let ghost args = byte_strings(a@);
    if a.len() < 3 {
        return true;
    }
    proof {
        lemma_expired_bump(store@, args[1], now);
    }
    match parse_int(a[2].as_slice()) {
        None => true,
        Some(by) => if down && by == i64::MIN {
            false
        } else {
            incr_fits(store, a[1].as_slice(), now, if down { -by } else { by })
        },
    }
}

proof fn lemma_set_options_some(e1: Map<Seq<u8>, u64>, e2: Map<Seq<u8>, u64>, a: Seq<Seq<u8>>, now: u64, p: nat)
    ensures
        set_options(e1, a, now, p) is Some <==> set_options(e2, a, now, p) is Some,
    decreases p,
{
    if p > 0 {
        lemma_set_options_some(e1, e2, a, now, (p - 1) as nat);
    }
}

proof fn lemma_div_bound(x: int, y: int)
    requires
        0 <= x,
        0 <= y,
    ensures
        x <= y / 1000 <==> x * 1000 <= y,
{
    assert(x <= y / 1000 <==> x * 1000 <= y) by (nonlinear_arith)
        requires
            0 <= x,
            0 <= y,
    ;
}

proof fn lemma_expired_bump(s: Keyspace, key: Seq<u8>, now: u64)
    ensures
        expired(bump(s), key, now) == bump(expired(s, key, now)),
        current_int(bump(expired(s, key, now)), key) == current_int(expired(s, key, now), key),
{
    assert(expired(bump(s), key, now) =~= bump(expired(s, key, now)));
}

/// Whether every `EX`/`PX` deadline of a `SET` fits in 64 bits.
fn set_options_fit(store: &Store, a: &[Vec<u8>], now: u64) -> (ok: bool)
    requires
        a@.len() >= 3,
    ensures
        ok == set_options(store@.expires.remove(byte_strings(a@)[1]), byte_strings(a@), now, option_pairs(a@.len() as int)) is Some,
{
    let ghost args = byte_strings(a@);
    let ghost e0 = store@.expires.remove(args[1]);
    let ghost total = option_pairs(a@.len() as int);
    let mut i: usize = 3;
    let ghost mut p: nat = 0;
    while i < a.len() - 1
        invariant
            a@.len() >= 3,
            args == byte_strings(a@),
            i == 3 + 2 * p,
            i <= a@.len(),
            p <= total,
            total == option_pairs(a@.len() as int),
            e0 == store@.expires.remove(args[1]),
            set_options(e0, args, now, p) is Some,
        decreases a@.len() - i,
    {
        let name = utf8_lossy(a[i].as_slice());
        let opt = upper_case(name.as_str());
        if let Some(n) = parse_int(a[i + 1].as_slice()) {
            let secs: u64 = if n < 0 { 0 } else { n as u64 };
            let ghost e1 = set_options(e0, args, now, p).unwrap();
            if same_text(opt.as_str(), "EX") {
                if secs > (u64::MAX - now) / 1000 {
                    proof {
                        lemma_div_bound(secs as int, (u64::MAX - now) as int);
                        assert(p + 1 <= total);
                        assert(set_options(e0, args, now, p + 1) is None);
                        if set_options(e0, args, now, total) is Some {
                            lemma_set_options_prefix(e0, args, now, (p + 1) as nat, total);
                        }
                        assert(set_options(e0, args, now, total) is None);
                    }
                    return false;
                }
            } else if same_text(opt.as_str(), "PX") {
                if secs > u64::MAX - now {
                    proof {
                        assert(p + 1 <= total);
                        assert(set_options(e0, args, now, p + 1) is None);
                        if set_options(e0, args, now, total) is Some {
                            lemma_set_options_prefix(e0, args, now, (p + 1) as nat, total);
                        }
                        assert(set_options(e0, args, now, total) is None);
                    }
                    return false;
                }
            }
        }
        i = i + 2;
        proof {
            p = p + 1;
        }
    }
    proof {
        assert(p == total);
    }
    true
}

/// Whether the command named `name` with arguments `a` completes on the keyspace at `now`.
pub fn command_completes(store: &Store, name: &str, a: &[Vec<u8>], now: u64) -> (ok: bool)
    requires
        a@.len() >= 1,
    ensures
        ok == completes(store@, name@, byte_strings(a@), now),
{
    let ghost args = byte_strings(a@);
    if store.cmds == u64::MAX {
        return false;
    }
    proof {
        if a@.len() >= 2 {
            lemma_expired_bump(store@, args[1], now);
        }
    }
    if same_text(name, "KEYS") {
        true
    } else if same_text(name, "HGETALL") {
        a.len() >= 2
    } else if same_text(name, "PING") || same_text(name, "ECHO") {
        true
    } else if same_text(name, "SET") {
        if a.len() < 3 {
            true
        } else {
            let ok = set_options_fit(store, a, now);
            proof {
                lemma_set_options_some(store@.expires.remove(args[1]), bump(store@).expires.remove(args[1]), args, now, option_pairs(a@.len() as int));
            }
            ok
        }
    } else if same_text(name, "GET") {
        if a.len() < 2 {
            true
        } else {
            let ok = match live_entry(store, a[1].as_slice(), now) {
                Some(Entry::Str(_)) => store.hits < u64::MAX,
                Some(_) => true,
                None => store.misses < u64::MAX,
            };
            ok
        }
    } else if same_text(name, "DEL") || same_text(name, "EXISTS") {
        true
    } else if same_text(name, "INCR") {
        let ok = a.len() < 2 || incr_fits(store, a[1].as_slice(), now, 1);
        ok
    } else if same_text(name, "DECR") {
        let ok = a.len() < 2 || incr_fits(store, a[1].as_slice(), now, -1);
        ok
    } else if same_text(name, "INCRBY") {
        incrby_fits(store, a, now, false)
    } else if same_text(name, "DECRBY") {
        incrby_fits(store, a, now, true)
    } else if same_text(name, "APPEND") {
        true
    } else if same_text(name, "STRLEN") || same_text(name, "TYPE") {
        let ok = a.len() >= 2;
        ok
    } else if same_text(name, "EXPIRE") {
        if a.len() < 3 {
            true
        } else {
            match parse_int(a[2].as_slice()) {
                None => true,
                Some(secs) => match live_entry(store, a[1].as_slice(), now) {
                    None => true,
                    Some(_) => {
                        let s: u64 = if secs < 0 { 0 } else { secs as u64 };
                        proof {
                            lemma_div_bound(s as int, (u64::MAX - now) as int);
                        }
                        s <= (u64::MAX - now) / 1000
                    },
                },
            }
        }
    } else if same_text(name, "TTL") || same_text(name, "PERSIST") {
        a.len() >= 2
    } else if same_text(name, "DBSIZE") || same_text(name, "FLUSHALL") || same_text(name, "FLUSHDB")
        || same_text(name, "LPUSH") || same_text(name, "RPUSH") || same_text(name, "LPOP")
        || same_text(name, "RPOP") || same_text(name, "LLEN") || same_text(name, "LRANGE")
        || same_text(name, "HSET") || same_text(name, "HGET") || same_text(name, "HDEL") {
        true
    } else if same_text(name, "HLEN") {
        a.len() >= 2
    } else {
        true
    }
}

/// The command name of a request: its first argument read as text and upper-cased.
fn name_of(first: &Vec<u8>) -> (n: String)
    ensures
        n@ == command_name(first@),
{
    let text = utf8_lossy(first.as_slice());
    upper_case(text.as_str())
}

/// Runs one request on the keyspace at time `now` (unix ms) and gives its reply.
pub fn dispatch(store: &mut Store, args: &[Vec<u8>], now: u64) -> (r: Value)
    requires
        args@.len() == 0 || completes(old(store)@, command_name(args@[0]@), byte_strings(args@), now),
    ensures
        args@.len() == 0 ==> final(store)@ == old(store)@ && r@ == Reply::Error("ERR empty command"@),
        args@.len() > 0 ==> outcome(old(store)@, command_name(args@[0]@), byte_strings(args@), now, final(store)@, r@),
        args@.len() > 0 ==> final(store)@.cmds == old(store)@.cmds + 1,
        deadlines_on_live_keys(old(store)@) ==> deadlines_on_live_keys(final(store)@),
{
    if args.len() == 0 {
        return Value::err("ERR empty command");
    }
    let name = name_of(&args[0]);
    proof {
        assert(byte_strings(args@)[0] == args@[0]@);
    }
    dispatch_command(store, name.as_str(), args, now)
}

/// Runs one request when it can complete, as `dispatch` does; `None`, with the keyspace left
/// as it was, for a request on which the command would stop (a missing argument it reads, a
/// number that leaves 64 bits, a counter at its limit).
pub fn try_dispatch(store: &mut Store, args: &[Vec<u8>], now: u64) -> (r: Option<Value>)
    ensures
        match r {
            None => args@.len() > 0 && !completes(old(store)@, command_name(args@[0]@), byte_strings(args@), now)
                && final(store)@ == old(store)@,
            Some(v) => {
                &&& args@.len() == 0 ==> final(store)@ == old(store)@ && v@ == Reply::Error("ERR empty command"@)
                &&& args@.len() > 0 ==> completes(old(store)@, command_name(args@[0]@), byte_strings(args@), now)
                &&& args@.len() > 0 ==> outcome(old(store)@, command_name(args@[0]@), byte_strings(args@), now, final(store)@, v@)
                &&& args@.len() > 0 ==> final(store)@.cmds == old(store)@.cmds + 1
            },
        },
        deadlines_on_live_keys(old(store)@) ==> deadlines_on_live_keys(final(store)@),
{
    if args.len() == 0 {
        return Some(dispatch(store, args, now));
    }
    let name = name_of(&args[0]);
    proof {
        assert(byte_strings(args@)[0] == args@[0]@);
    }
    if command_completes(store, name.as_str(), args, now) {
        Some(dispatch(store, args, now))
    } else {
        None
    }
}

}
