use rudis::resp::{encode, parse_command, Value};
use rudis::{dispatch, Store};

fn run(s: &mut Store, parts: &[&str], now: u64) -> Value {
    let args: Vec<Vec<u8>> = parts.iter().map(|p| p.as_bytes().to_vec()).collect();
    dispatch(s, &args, now)
}

#[test]
fn deleting_a_key_drops_its_deadline() {
    let mut s = Store::default();
    run(&mut s, &["SET", "k", "v", "EX", "10"], 0);
    assert!(s.expires.contains_key(b"k"));
    run(&mut s, &["DEL", "k"], 0);
    assert!(!s.expires.contains_key(b"k"));
    assert!(!s.data.contains_key(b"k"));
    assert_eq!(s.cmds, 2);
}

#[test]
fn exists_after_del_counts_nothing() {
    let mut s = Store::default();
    run(&mut s, &["RPUSH", "k", "a"], 0);
    assert_eq!(run(&mut s, &["DEL", "k"], 0), Value::Int(1));
    assert_eq!(run(&mut s, &["EXISTS", "k"], 7), Value::Int(0));
}

#[test]
fn a_second_incr_counts_one_more() {
    let mut s = Store::default();
    run(&mut s, &["SET", "n", "-3"], 0);
    assert_eq!(run(&mut s, &["INCR", "n"], 0), Value::Int(-2));
    assert_eq!(run(&mut s, &["INCR", "n"], 0), Value::Int(-1));
}

#[test]
fn a_pop_undoes_a_push_at_either_end() {
    let mut s = Store::default();
    run(&mut s, &["RPUSH", "l", "a", "b"], 0);
    assert_eq!(run(&mut s, &["RPUSH", "l", "z"], 0), Value::Int(3));
    assert_eq!(run(&mut s, &["RPOP", "l"], 0), Value::bulk("z"));
    assert_eq!(run(&mut s, &["LPUSH", "l", "y"], 0), Value::Int(3));
    assert_eq!(run(&mut s, &["LPOP", "l"], 0), Value::bulk("y"));
    assert_eq!(
        run(&mut s, &["LRANGE", "l", "0", "-1"], 0),
        Value::Array(vec![Value::bulk("a"), Value::bulk("b")])
    );
}

#[test]
fn hget_reads_back_what_hset_wrote() {
    let mut s = Store::default();
    run(&mut s, &["HSET", "h", "f", "old"], 0);
    run(&mut s, &["HSET", "h", "f", "new"], 0);
    assert_eq!(run(&mut s, &["HGET", "h", "f"], 0), Value::bulk("new"));
    run(&mut s, &["SET", "str", "x"], 0);
    let wrong = Value::err("WRONGTYPE Operation against a key holding the wrong kind of value");
    assert_eq!(run(&mut s, &["HSET", "str", "f", "v"], 0), wrong);
    assert_eq!(run(&mut s, &["HGET", "str", "f"], 0), wrong);
}

#[test]
fn ttl_right_after_expire_is_the_seconds_set() {
    let mut s = Store::default();
    run(&mut s, &["SET", "k", "v"], 0);
    assert_eq!(run(&mut s, &["EXPIRE", "k", "42"], 1_000), Value::Int(1));
    assert_eq!(run(&mut s, &["TTL", "k"], 1_000), Value::Int(42));
    run(&mut s, &["SET", "j", "v"], 0);
    assert_eq!(run(&mut s, &["EXPIRE", "j", "0"], 1_000), Value::Int(1));
    assert_eq!(run(&mut s, &["TTL", "j"], 1_000), Value::Int(-2));
}

#[test]
fn get_after_the_deadline_finds_nothing() {
    let mut s = Store::default();
    run(&mut s, &["SET", "k", "v"], 0);
    assert_eq!(run(&mut s, &["EXPIRE", "k", "3"], 1_000), Value::Int(1));
    assert_eq!(run(&mut s, &["GET", "k"], 3_999), Value::bulk("v"));
    assert_eq!(run(&mut s, &["GET", "k"], 4_000), Value::Null);
    assert!(!s.data.contains_key(b"k"));
}

#[test]
fn ttl_after_persist_is_minus_one() {
    let mut s = Store::default();
    run(&mut s, &["SET", "k", "v", "PX", "500"], 0);
    assert_eq!(run(&mut s, &["PERSIST", "k"], 0), Value::Int(1));
    assert_eq!(run(&mut s, &["TTL", "k"], 10_000), Value::Int(-1));
    assert_eq!(run(&mut s, &["PERSIST", "gone"], 0), Value::Int(0));
    assert_eq!(run(&mut s, &["TTL", "gone"], 0), Value::Int(-2));
}

#[test]
fn flushall_leaves_nothing() {
    let mut s = Store::default();
    run(&mut s, &["SET", "a", "1"], 0);
    run(&mut s, &["RPUSH", "b", "1"], 0);
    assert_eq!(run(&mut s, &["FLUSHALL"], 0), Value::ok());
    assert_eq!(run(&mut s, &["DBSIZE"], 0), Value::Int(0));
}

#[test]
fn keys_star_lists_every_key_once() {
    let mut s = Store::default();
    run(&mut s, &["SET", "a", "1"], 0);
    run(&mut s, &["RPUSH", "b", "1"], 0);
    run(&mut s, &["HSET", "c", "f", "1"], 0);
    for parts in [&["KEYS"][..], &["KEYS", "*"][..]] {
        match run(&mut s, parts, 0) {
            Value::Array(items) => {
                let mut names: Vec<Value> = items;
                names.sort_by_key(|v| format!("{v:?}"));
                assert_eq!(names, vec![Value::bulk("a"), Value::bulk("b"), Value::bulk("c")]);
            }
            other => panic!("unexpected reply {other:?}"),
        }
    }
}

#[test]
fn encoded_commands_read_back_whatever_follows() {
    let args: Vec<Vec<u8>> = vec![b"SET".to_vec(), b"k".to_vec(), b"a\r\nb".to_vec(), Vec::new()];
    let mut bytes = Vec::new();
    encode(&Value::Array(args.iter().map(|a| Value::Bulk(a.clone())).collect()), &mut bytes);
    let n = bytes.len();
    bytes.extend_from_slice(b"*1\r\n$4\r\nPING\r\n");
    let (back, used) = parse_command(&bytes).unwrap().unwrap();
    assert_eq!(back, args);
    assert_eq!(used, n);
}

#[test]
fn inline_commands_read_back_their_words() {
    let (words, used) = parse_command(b"SET  k v\r\nrest").unwrap().unwrap();
    assert_eq!(words, vec![b"SET".to_vec(), b"k".to_vec(), b"v".to_vec()]);
    assert_eq!(used, 10);
}

#[test]
fn every_whole_frame_uses_some_bytes() {
    for buf in [&b"\n"[..], b"\r\n", b"*0\r\n", b"*-1\r\n", b"PING\n"] {
        let (_, used) = parse_command(buf).unwrap().unwrap();
        assert!(used >= 1 && used <= buf.len());
    }
}

#[test]
fn type_counts_add_up_to_the_keys() {
    let mut s = Store::default();
    run(&mut s, &["SET", "a", "1"], 0);
    run(&mut s, &["SET", "b", "1"], 0);
    run(&mut s, &["RPUSH", "c", "1"], 0);
    run(&mut s, &["HSET", "d", "f", "1"], 0);
    let (st, li, ha) = s.type_counts();
    assert_eq!((st, li, ha), (2, 1, 1));
    assert_eq!(st + li + ha, s.data.len());
}

#[test]
fn decr_right_after_incr_gives_back_the_number() {
    let mut s = Store::default();
    run(&mut s, &["SET", "n", "41"], 0);
    assert_eq!(run(&mut s, &["INCR", "n"], 0), Value::Int(42));
    assert_eq!(run(&mut s, &["DECR", "n"], 0), Value::Int(41));
}

#[test]
fn a_pattern_without_wildcards_matches_only_itself() {
    let mut s = Store::default();
    run(&mut s, &["SET", "user", "1"], 0);
    run(&mut s, &["SET", "users", "1"], 0);
    run(&mut s, &["SET", "use", "1"], 0);
    assert_eq!(run(&mut s, &["KEYS", "user"], 0), Value::Array(vec![Value::bulk("user")]));
    assert_eq!(run(&mut s, &["KEYS", "nobody"], 0), Value::Array(vec![]));
}

#[test]
fn lrange_zero_to_minus_one_is_the_whole_list() {
    let mut s = Store::default();
    run(&mut s, &["RPUSH", "l", "a", "b"], 0);
    run(&mut s, &["LPUSH", "l", "z"], 0);
    assert_eq!(
        run(&mut s, &["LRANGE", "l", "0", "-1"], 0),
        Value::Array(vec![Value::bulk("z"), Value::bulk("a"), Value::bulk("b")])
    );
}

fn expired_key(s: &mut Store) {
    run(s, &["SET", "k", "v"], 0);
    assert_eq!(run(s, &["EXPIRE", "k", "1"], 0), Value::Int(1));
}

#[test]
fn type_of_an_expired_key_is_none() {
    let mut s = Store::default();
    expired_key(&mut s);
    assert_eq!(run(&mut s, &["TYPE", "k"], 5_000), Value::Simple("none".into()));
    assert!(!s.data.contains_key(b"k"));
}

#[test]
fn persist_on_an_expired_key_finds_nothing() {
    let mut s = Store::default();
    expired_key(&mut s);
    assert_eq!(run(&mut s, &["PERSIST", "k"], 5_000), Value::Int(0));
    assert!(!s.data.contains_key(b"k"));
    assert!(!s.expires.contains_key(b"k"));
    assert_eq!(run(&mut s, &["GET", "k"], 6_000), Value::Null);
}

#[test]
fn keys_leaves_out_expired_keys() {
    let mut s = Store::default();
    expired_key(&mut s);
    run(&mut s, &["SET", "j", "v"], 0);
    assert_eq!(run(&mut s, &["KEYS", "*"], 999), Value::Array(vec![Value::bulk("k"), Value::bulk("j")]));
    assert_eq!(run(&mut s, &["KEYS", "*"], 5_000), Value::Array(vec![Value::bulk("j")]));
}

#[test]
fn list_and_hash_reads_evict_expired_keys() {
    let mut s = Store::default();
    run(&mut s, &["RPUSH", "l", "a"], 0);
    run(&mut s, &["EXPIRE", "l", "1"], 0);
    assert_eq!(run(&mut s, &["LLEN", "l"], 5_000), Value::Int(0));
    run(&mut s, &["RPUSH", "m", "a"], 0);
    run(&mut s, &["EXPIRE", "m", "1"], 0);
    assert_eq!(run(&mut s, &["LRANGE", "m", "0", "-1"], 5_000), Value::Array(vec![]));
    run(&mut s, &["HSET", "h", "f", "1"], 0);
    run(&mut s, &["EXPIRE", "h", "1"], 0);
    assert_eq!(run(&mut s, &["HGET", "h", "f"], 5_000), Value::Null);
    run(&mut s, &["HSET", "g", "f", "1"], 0);
    run(&mut s, &["EXPIRE", "g", "1"], 0);
    assert_eq!(run(&mut s, &["HLEN", "g"], 5_000), Value::Int(0));
    run(&mut s, &["HSET", "i", "f", "1"], 0);
    run(&mut s, &["EXPIRE", "i", "1"], 0);
    assert_eq!(run(&mut s, &["HGETALL", "i"], 5_000), Value::Array(vec![]));
    run(&mut s, &["HSET", "d", "f", "1"], 0);
    run(&mut s, &["EXPIRE", "d", "1"], 0);
    assert_eq!(run(&mut s, &["HDEL", "d", "f"], 5_000), Value::Int(0));
}

#[test]
fn hset_on_an_expired_string_starts_a_new_hash() {
    let mut s = Store::default();
    expired_key(&mut s);
    assert_eq!(run(&mut s, &["HSET", "k", "f", "v"], 5_000), Value::Int(1));
    assert_eq!(run(&mut s, &["HGET", "k", "f"], 5_000), Value::bulk("v"));
    assert_eq!(run(&mut s, &["TTL", "k"], 5_000), Value::Int(-1));
}

#[test]
fn the_bytes_used_alone_decide_the_command() {
    let buf = b"*2\r\n$4\r\nECHO\r\n$2\r\nhi\r\n*1\r\n$4\r\nPING\r\n";
    let (args, used) = parse_command(buf).unwrap().unwrap();
    assert_eq!(parse_command(&buf[..used]).unwrap().unwrap(), (args.clone(), used));
    let mut longer = buf.to_vec();
    longer.extend_from_slice(b"garbage\r\n");
    assert_eq!(parse_command(&longer).unwrap().unwrap(), (args, used));
}

#[test]
fn a_frame_cut_short_waits_for_more() {
    let frame = b"*2\r\n$4\r\nECHO\r\n$2\r\nhi\r\n";
    for k in 0..frame.len() {
        assert_eq!(parse_command(&frame[..k]), Ok(None), "cut at {k}");
    }
    let inline = b"SET k v\r\n";
    for k in 0..inline.len() {
        assert_eq!(parse_command(&inline[..k]), Ok(None), "cut at {k}");
    }
}

#[test]
fn an_error_stays_an_error_when_more_bytes_come() {
    for bad in [&b"*x\r\n"[..], b"*1\r\n+PING\r\n", b"*1\r\n$x\r\n"] {
        let e = parse_command(bad);
        assert!(e.is_err());
        let mut longer = bad.to_vec();
        longer.extend_from_slice(b"$4\r\nPING\r\n");
        assert_eq!(parse_command(&longer), e);
    }
}

#[test]
fn every_request_is_counted_once() {
    let mut s = Store::default();
    run(&mut s, &["NOSUCH"], 0);
    run(&mut s, &["GET"], 0);
    run(&mut s, &["SET", "k", "v"], 0);
    assert_eq!(s.cmds, 3);
    let none: Vec<Vec<u8>> = Vec::new();
    assert_eq!(dispatch(&mut s, &none, 0), Value::err("ERR empty command"));
    assert_eq!(s.cmds, 3);
}
