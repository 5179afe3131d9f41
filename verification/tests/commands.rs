use rudis::commands::try_dispatch;
use rudis::{dispatch, Store, Value};

fn cmd(store: &mut Store, parts: &[&str]) -> Value {
    let args: Vec<Vec<u8>> = parts.iter().map(|s| s.as_bytes().to_vec()).collect();
    dispatch(store, &args, 1_000_000)
}

fn cmd_at(store: &mut Store, parts: &[&str], now: u64) -> Value {
    let args: Vec<Vec<u8>> = parts.iter().map(|s| s.as_bytes().to_vec()).collect();
    dispatch(store, &args, now)
}

fn bulks(items: &[&str]) -> Value {
    Value::Array(items.iter().map(|s| Value::bulk(s)).collect())
}

fn err(msg: &str) -> Value {
    Value::Error(msg.to_string())
}

#[test]
fn strings_and_counters() {
    let mut s = Store::default();
    assert_eq!(cmd(&mut s, &["SET", "x", "10"]), Value::ok());
    assert_eq!(cmd(&mut s, &["GET", "x"]), Value::bulk("10"));
    assert_eq!(cmd(&mut s, &["INCR", "x"]), Value::Int(11));
    assert_eq!(cmd(&mut s, &["INCRBY", "x", "5"]), Value::Int(16));
    assert_eq!(cmd(&mut s, &["GET", "missing"]), Value::Null);
}

#[test]
fn lists_and_hashes() {
    let mut s = Store::default();
    assert_eq!(cmd(&mut s, &["RPUSH", "l", "a", "b", "c"]), Value::Int(3));
    assert_eq!(cmd(&mut s, &["LPOP", "l"]), Value::bulk("a"));
    assert_eq!(cmd(&mut s, &["LLEN", "l"]), Value::Int(2));
    assert_eq!(cmd(&mut s, &["HSET", "h", "f", "1"]), Value::Int(1));
    assert_eq!(cmd(&mut s, &["HGET", "h", "f"]), Value::bulk("1"));
    assert_eq!(cmd(&mut s, &["TYPE", "h"]), Value::Simple("hash".into()));
}

#[test]
fn expiry() {
    let mut s = Store::default();
    cmd(&mut s, &["SET", "k", "v"]);
    let args: Vec<Vec<u8>> = ["EXPIRE", "k", "10"].iter().map(|s| s.as_bytes().to_vec()).collect();
    assert_eq!(dispatch(&mut s, &args, 0), Value::Int(1));
    // 5s in: still there
    let g: Vec<Vec<u8>> = ["GET", "k"].iter().map(|s| s.as_bytes().to_vec()).collect();
    assert_eq!(dispatch(&mut s, &g, 5_000), Value::bulk("v"));
    // 11s in: gone
    assert_eq!(dispatch(&mut s, &g, 11_000), Value::Null);
}

#[test]
fn get_reads_back_what_set_wrote() {
    let mut s = Store::default();
    cmd(&mut s, &["SET", "name", "ada"]);
    assert_eq!(cmd_at(&mut s, &["GET", "name"], 99_000_000), Value::bulk("ada"));
    cmd(&mut s, &["SET", "name", "grace"]);
    assert_eq!(cmd(&mut s, &["GET", "name"]), Value::bulk("grace"));
}

#[test]
fn set_with_ex_and_px_sets_a_deadline() {
    let mut s = Store::default();
    assert_eq!(cmd_at(&mut s, &["SET", "a", "1", "EX", "2"], 1000), Value::ok());
    assert_eq!(cmd_at(&mut s, &["TTL", "a"], 1000), Value::Int(2));
    assert_eq!(cmd_at(&mut s, &["GET", "a"], 2999), Value::bulk("1"));
    assert_eq!(cmd_at(&mut s, &["GET", "a"], 3000), Value::Null);
    assert_eq!(cmd_at(&mut s, &["SET", "b", "2", "px", "500"], 1000), Value::ok());
    assert_eq!(cmd_at(&mut s, &["GET", "b"], 1499), Value::bulk("2"));
    assert_eq!(cmd_at(&mut s, &["GET", "b"], 1500), Value::Null);
    // a plain SET clears the deadline
    cmd_at(&mut s, &["SET", "c", "3", "EX", "1"], 0);
    cmd_at(&mut s, &["SET", "c", "4"], 0);
    assert_eq!(cmd_at(&mut s, &["TTL", "c"], 0), Value::Int(-1));
    // a negative time counts as zero: the key is gone at once
    cmd_at(&mut s, &["SET", "d", "5", "EX", "-3"], 100);
    assert_eq!(cmd_at(&mut s, &["GET", "d"], 100), Value::Null);
}

#[test]
fn ttl_and_persist() {
    let mut s = Store::default();
    assert_eq!(cmd(&mut s, &["TTL", "nope"]), Value::Int(-2));
    cmd(&mut s, &["SET", "k", "v"]);
    assert_eq!(cmd(&mut s, &["TTL", "k"]), Value::Int(-1));
    assert_eq!(cmd_at(&mut s, &["EXPIRE", "k", "100"], 1_000), Value::Int(1));
    assert_eq!(cmd_at(&mut s, &["TTL", "k"], 51_500), Value::Int(49));
    assert_eq!(cmd_at(&mut s, &["PERSIST", "k"], 60_000), Value::Int(1));
    assert_eq!(cmd_at(&mut s, &["PERSIST", "k"], 60_000), Value::Int(0));
    assert_eq!(cmd_at(&mut s, &["GET", "k"], 500_000), Value::bulk("v"));
    assert_eq!(cmd(&mut s, &["EXPIRE", "nope", "5"]), Value::Int(0));
    assert_eq!(cmd(&mut s, &["EXPIRE", "k", "soon"]), err("ERR value is not an integer or out of range"));
}

#[test]
fn del_and_exists() {
    let mut s = Store::default();
    cmd(&mut s, &["SET", "a", "1"]);
    cmd(&mut s, &["SET", "b", "2"]);
    assert_eq!(cmd(&mut s, &["EXISTS", "a", "b", "c", "a"]), Value::Int(3));
    assert_eq!(cmd(&mut s, &["DEL", "a", "c", "a"]), Value::Int(1));
    assert_eq!(cmd(&mut s, &["EXISTS", "a"]), Value::Int(0));
    assert_eq!(cmd(&mut s, &["GET", "a"]), Value::Null);
    assert_eq!(cmd(&mut s, &["DBSIZE"]), Value::Int(1));
    assert_eq!(cmd(&mut s, &["DEL"]), Value::Int(0));
}

#[test]
fn counters() {
    let mut s = Store::default();
    assert_eq!(cmd(&mut s, &["INCR", "n"]), Value::Int(1));
    assert_eq!(cmd(&mut s, &["INCR", "n"]), Value::Int(2));
    assert_eq!(cmd(&mut s, &["DECR", "n"]), Value::Int(1));
    assert_eq!(cmd(&mut s, &["DECRBY", "n", "10"]), Value::Int(-9));
    assert_eq!(cmd(&mut s, &["GET", "n"]), Value::bulk("-9"));
    assert_eq!(cmd(&mut s, &["INCRBY", "n", "+4"]), Value::Int(-5));
    cmd(&mut s, &["SET", "w", "ten"]);
    assert_eq!(cmd(&mut s, &["INCR", "w"]), err("ERR value is not an integer or out of range"));
    assert_eq!(cmd(&mut s, &["INCRBY", "n", "x"]), err("ERR value is not an integer or out of range"));
    cmd(&mut s, &["RPUSH", "l", "a"]);
    assert_eq!(cmd(&mut s, &["INCR", "l"]), err("WRONGTYPE Operation against a key holding the wrong kind of value"));
    assert_eq!(cmd(&mut s, &["INCRBY", "n"]), err("ERR wrong number of arguments for 'incrby'"));
}

#[test]
fn append_and_strlen() {
    let mut s = Store::default();
    assert_eq!(cmd(&mut s, &["APPEND", "k", "ab"]), Value::Int(2));
    assert_eq!(cmd(&mut s, &["APPEND", "k", "cde"]), Value::Int(5));
    assert_eq!(cmd(&mut s, &["GET", "k"]), Value::bulk("abcde"));
    assert_eq!(cmd(&mut s, &["STRLEN", "k"]), Value::Int(5));
    assert_eq!(cmd(&mut s, &["STRLEN", "none"]), Value::Int(0));
    cmd(&mut s, &["HSET", "h", "f", "v"]);
    assert_eq!(cmd(&mut s, &["APPEND", "h", "x"]), err("WRONGTYPE Operation against a key holding the wrong kind of value"));
    assert_eq!(cmd(&mut s, &["STRLEN", "h"]), err("WRONGTYPE Operation against a key holding the wrong kind of value"));
    assert_eq!(cmd(&mut s, &["GET", "h"]), err("WRONGTYPE Operation against a key holding the wrong kind of value"));
}

#[test]
fn keys_by_glob() {
    let mut s = Store::default();
    for k in ["one", "two", "three", "tea"] {
        cmd(&mut s, &["SET", k, "x"]);
    }
    let mut got = match cmd(&mut s, &["KEYS", "t*"]) {
        Value::Array(items) => items,
        other => panic!("unexpected {:?}", other),
    };
    got.sort_by(|a, b| format!("{:?}", a).cmp(&format!("{:?}", b)));
    assert_eq!(Value::Array(got), bulks(&["tea", "three", "two"]));
    assert_eq!(cmd(&mut s, &["KEYS", "t?o"]), bulks(&["two"]));
    assert_eq!(cmd(&mut s, &["KEYS", "nothing"]), bulks(&[]));
    match cmd(&mut s, &["KEYS"]) {
        Value::Array(items) => assert_eq!(items.len(), 4),
        other => panic!("unexpected {:?}", other),
    }
}

#[test]
fn list_ranges() {
    let mut s = Store::default();
    assert_eq!(cmd(&mut s, &["LPUSH", "l", "c", "b", "a"]), Value::Int(3));
    assert_eq!(cmd(&mut s, &["RPUSH", "l", "d"]), Value::Int(4));
    assert_eq!(cmd(&mut s, &["LRANGE", "l", "0", "-1"]), bulks(&["a", "b", "c", "d"]));
    assert_eq!(cmd(&mut s, &["LRANGE", "l", "1", "2"]), bulks(&["b", "c"]));
    assert_eq!(cmd(&mut s, &["LRANGE", "l", "-2", "100"]), bulks(&["c", "d"]));
    assert_eq!(cmd(&mut s, &["LRANGE", "l", "3", "1"]), bulks(&[]));
    assert_eq!(cmd(&mut s, &["LRANGE", "none", "0", "-1"]), bulks(&[]));
    assert_eq!(cmd(&mut s, &["LRANGE", "l", "a", "1"]), err("ERR value is not an integer or out of range"));
    assert_eq!(cmd(&mut s, &["RPOP", "l"]), Value::bulk("d"));
    assert_eq!(cmd(&mut s, &["LPOP", "l"]), Value::bulk("a"));
    assert_eq!(cmd(&mut s, &["LPOP", "l"]), Value::bulk("b"));
    assert_eq!(cmd(&mut s, &["LPOP", "l"]), Value::bulk("c"));
    assert_eq!(cmd(&mut s, &["LPOP", "l"]), Value::Null);
    // an emptied list stays, as a list
    assert_eq!(cmd(&mut s, &["TYPE", "l"]), Value::Simple("list".into()));
    assert_eq!(cmd(&mut s, &["LLEN", "l"]), Value::Int(0));
    assert_eq!(cmd(&mut s, &["LLEN", "none"]), Value::Int(0));
    assert_eq!(cmd(&mut s, &["RPOP", "none"]), Value::Null);
}

#[test]
fn hashes() {
    let mut s = Store::default();
    assert_eq!(cmd(&mut s, &["HSET", "h", "a", "1", "b", "2"]), Value::Int(2));
    assert_eq!(cmd(&mut s, &["HSET", "h", "a", "3", "c", "4"]), Value::Int(1));
    assert_eq!(cmd(&mut s, &["HGET", "h", "a"]), Value::bulk("3"));
    assert_eq!(cmd(&mut s, &["HGET", "h", "z"]), Value::Null);
    assert_eq!(cmd(&mut s, &["HLEN", "h"]), Value::Int(3));
    assert_eq!(cmd(&mut s, &["HDEL", "h", "a", "z", "a"]), Value::Int(1));
    assert_eq!(cmd(&mut s, &["HLEN", "h"]), Value::Int(2));
    let mut pairs: Vec<(Vec<u8>, Vec<u8>)> = match cmd(&mut s, &["HGETALL", "h"]) {
        Value::Array(items) => items
            .chunks(2)
            .map(|c| match (&c[0], &c[1]) {
                (Value::Bulk(f), Value::Bulk(v)) => (f.clone(), v.clone()),
                other => panic!("unexpected {:?}", other),
            })
            .collect(),
        other => panic!("unexpected {:?}", other),
    };
    pairs.sort();
    assert_eq!(pairs, vec![(b"b".to_vec(), b"2".to_vec()), (b"c".to_vec(), b"4".to_vec())]);
    assert_eq!(cmd(&mut s, &["HGETALL", "none"]), bulks(&[]));
    assert_eq!(cmd(&mut s, &["HSET", "h", "a"]), err("ERR wrong number of arguments for 'hset'"));
    assert_eq!(cmd(&mut s, &["HSET", "h", "a", "b", "c"]), err("ERR wrong number of arguments for 'hset'"));
    assert_eq!(cmd(&mut s, &["hset", "h"]), err("ERR wrong number of arguments for 'hset'"));
    cmd(&mut s, &["SET", "str", "x"]);
    assert_eq!(cmd(&mut s, &["HGET", "str", "a"]), err("WRONGTYPE Operation against a key holding the wrong kind of value"));
    assert_eq!(cmd(&mut s, &["HSET", "str", "a", "1"]), err("WRONGTYPE Operation against a key holding the wrong kind of value"));
    assert_eq!(cmd(&mut s, &["HDEL", "none", "a"]), Value::Int(0));
    assert_eq!(cmd(&mut s, &["HLEN", "none"]), Value::Int(0));
}

#[test]
fn server_commands() {
    let mut s = Store::default();
    assert_eq!(cmd(&mut s, &["PING"]), Value::Simple("PONG".into()));
    assert_eq!(cmd(&mut s, &["ping", "hi"]), Value::bulk("hi"));
    assert_eq!(cmd(&mut s, &["ECHO", "yo"]), Value::bulk("yo"));
    assert_eq!(cmd(&mut s, &["Echo"]), err("ERR wrong number of arguments for 'echo'"));
    assert_eq!(cmd(&mut s, &["COMMAND", "DOCS"]), bulks(&[]));
    assert_eq!(cmd(&mut s, &["QUIT"]), Value::ok());
    assert_eq!(cmd(&mut s, &["nosuch", "x"]), err("ERR unknown command 'NOSUCH'"));
    cmd(&mut s, &["SET", "a", "1"]);
    assert_eq!(
        cmd(&mut s, &["INFO"]),
        Value::bulk("# rudis\r\nkeys:1\r\ncommands_processed:9\r\n")
    );
    assert_eq!(cmd(&mut s, &["FLUSHALL"]), Value::ok());
    assert_eq!(cmd(&mut s, &["DBSIZE"]), Value::Int(0));
    assert_eq!(s.cmds, 11);
    let empty: Vec<Vec<u8>> = Vec::new();
    assert_eq!(dispatch(&mut s, &empty, 0), err("ERR empty command"));
    assert_eq!(s.cmds, 11);
}

#[test]
fn hit_and_miss_counters() {
    let mut s = Store::default();
    cmd(&mut s, &["SET", "a", "1"]);
    cmd(&mut s, &["GET", "a"]);
    cmd(&mut s, &["GET", "a"]);
    cmd(&mut s, &["GET", "b"]);
    assert_eq!((s.hits, s.misses), (2, 1));
}

#[test]
fn type_names_and_counts() {
    let mut s = Store::default();
    cmd(&mut s, &["SET", "a", "1"]);
    cmd(&mut s, &["SET", "b", "1"]);
    cmd(&mut s, &["RPUSH", "l", "x"]);
    cmd(&mut s, &["HSET", "h", "f", "v"]);
    assert_eq!(s.type_counts(), (2, 1, 1));
    assert_eq!(s.key_type(b"a"), "string");
    assert_eq!(s.key_type(b"l"), "list");
    assert_eq!(s.key_type(b"zz"), "none");
    assert_eq!(cmd(&mut s, &["TYPE", "zz"]), Value::Simple("none".into()));
}

#[test]
fn expire_check_drops_only_due_keys() {
    let mut s = Store::default();
    cmd_at(&mut s, &["SET", "a", "1", "PX", "10"], 100);
    s.expire_check(b"a", 109);
    assert_eq!(s.data.len(), 1);
    s.expire_check(b"a", 110);
    assert_eq!(s.data.len(), 0);
    assert_eq!(s.expires.len(), 0);
}

#[test]
fn requests_that_cannot_finish() {
    let mut s = Store::default();
    let args = |parts: &[&str]| -> Vec<Vec<u8>> { parts.iter().map(|p| p.as_bytes().to_vec()).collect() };
    assert!(try_dispatch(&mut s, &args(&["STRLEN"]), 0).is_none());
    assert!(try_dispatch(&mut s, &args(&["hgetall"]), 0).is_none());
    assert_eq!(try_dispatch(&mut s, &args(&["SET", "n", "9223372036854775807"]), 0), Some(Value::ok()));
    assert!(try_dispatch(&mut s, &args(&["INCR", "n"]), 0).is_none());
    assert!(try_dispatch(&mut s, &args(&["DECRBY", "m", "-9223372036854775808"]), 0).is_none());
    assert!(try_dispatch(&mut s, &args(&["EXPIRE", "n", "9223372036854775807"]), 0).is_none());
    assert!(try_dispatch(&mut s, &args(&["SET", "k", "v", "EX", "9223372036854775807"]), 0).is_none());
    assert_eq!(try_dispatch(&mut s, &args(&["GET", "n"]), 0), Some(Value::bulk("9223372036854775807")));
    assert_eq!(try_dispatch(&mut s, &args(&["DECR", "n"]), 0), Some(Value::Int(9223372036854775806)));
    assert_eq!(s.cmds, 3);
}
