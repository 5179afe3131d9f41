use vstd::prelude::*;
use crate::resp::{Reply, bulk_items, command_frame, crlf, framed, line_at, newline_from, replies_bytes, reply_bytes, words};
use crate::semantics::{
    checked, count_reply, ok_reply, llen_key, is_live, bump, completes, del_keys, exists_keys, outcome, run, set_options, set_cmd, get_cmd, incr_cmd,
    incrby_cmd, append_cmd, strlen_cmd, del_cmd, exists_cmd, type_cmd, expire_cmd, ttl_cmd,
    persist_cmd, hset_fields, hdel_fields, glob_from, glob_matches, keys_pattern, lists_keys, live_keys, matching_keys, bulks, range_items, push_cmd, pop_cmd, llen_cmd, lrange_cmd, hset_cmd, hget_cmd, hdel_cmd, hlen_cmd,
};
use crate::store::{Item, Keyspace, expired};
use crate::text::{lossy_text, upper_text, decimal_digits, decimal_text, i64_of_text, is_digit, lemma_decimal_digits, lemma_i64_text_round_trip, lemma_usize_text_round_trip, usize_of_text};

verus! {

/// `run` reads the name `SET` as the `SET` command.
proof fn lemma_runs_set(s: Keyspace, a: Seq<Seq<u8>>, now: u64)
    ensures
        "SET"@ != "KEYS"@,
        "SET"@ != "HGETALL"@,
        run(s, "SET"@, a, now) == set_cmd(s, a, now),
{
    reveal_strlit("KEYS");
    reveal_strlit("HGETALL");
    reveal_strlit("PING");
    reveal_strlit("ECHO");
    reveal_strlit("SET");
    assert("SET"@.len() != "PING"@.len());
    assert("SET"@.len() != "ECHO"@.len());
    assert("SET"@.len() != "KEYS"@.len());
    assert("SET"@.len() != "HGETALL"@.len());
}

/// `run` reads the name `GET` as the `GET` command.
proof fn lemma_runs_get(s: Keyspace, a: Seq<Seq<u8>>, now: u64)
    ensures
        "GET"@ != "KEYS"@,
        "GET"@ != "HGETALL"@,
        run(s, "GET"@, a, now) == get_cmd(s, a, now),
{
    reveal_strlit("KEYS");
    reveal_strlit("HGETALL");
    reveal_strlit("PING");
    reveal_strlit("ECHO");
    reveal_strlit("SET");
    reveal_strlit("GET");
    assert("GET"@.len() != "PING"@.len());
    assert("GET"@.len() != "ECHO"@.len());
    assert("GET"@[0] != "SET"@[0]);
    assert("GET"@.len() != "KEYS"@.len());
    assert("GET"@.len() != "HGETALL"@.len());
}

/// `run` reads the name `DEL` as the `DEL` command.
proof fn lemma_runs_del(s: Keyspace, a: Seq<Seq<u8>>, now: u64)
    ensures
        "DEL"@ != "KEYS"@,
        "DEL"@ != "HGETALL"@,
        run(s, "DEL"@, a, now) == del_cmd(s, a, now),
{
    reveal_strlit("KEYS");
    reveal_strlit("HGETALL");
    reveal_strlit("PING");
    reveal_strlit("ECHO");
    reveal_strlit("SET");
    reveal_strlit("GET");
    reveal_strlit("DEL");
    assert("DEL"@.len() != "PING"@.len());
    assert("DEL"@.len() != "ECHO"@.len());
    assert("DEL"@[0] != "SET"@[0]);
    assert("DEL"@[0] != "GET"@[0]);
    assert("DEL"@.len() != "KEYS"@.len());
    assert("DEL"@.len() != "HGETALL"@.len());
}

/// `run` reads the name `EXISTS` as the `EXISTS` command.
proof fn lemma_runs_exists(s: Keyspace, a: Seq<Seq<u8>>, now: u64)
    ensures
        "EXISTS"@ != "KEYS"@,
        "EXISTS"@ != "HGETALL"@,
        run(s, "EXISTS"@, a, now) == exists_cmd(s, a, now),
{
    reveal_strlit("KEYS");
    reveal_strlit("HGETALL");
    reveal_strlit("PING");
    reveal_strlit("ECHO");
    reveal_strlit("SET");
    reveal_strlit("GET");
    reveal_strlit("DEL");
    reveal_strlit("EXISTS");
    assert("EXISTS"@.len() != "PING"@.len());
    assert("EXISTS"@.len() != "ECHO"@.len());
    assert("EXISTS"@.len() != "SET"@.len());
    assert("EXISTS"@.len() != "GET"@.len());
    assert("EXISTS"@.len() != "DEL"@.len());
    assert("EXISTS"@.len() != "KEYS"@.len());
    assert("EXISTS"@.len() != "HGETALL"@.len());
}

/// `run` reads the name `INCR` as the `INCR` command.
proof fn lemma_runs_incr(s: Keyspace, a: Seq<Seq<u8>>, now: u64)
    ensures
        "INCR"@ != "KEYS"@,
        "INCR"@ != "HGETALL"@,
        run(s, "INCR"@, a, now) == incr_cmd(s, a, now, 1),
{
    reveal_strlit("KEYS");
    reveal_strlit("HGETALL");
    reveal_strlit("PING");
    reveal_strlit("ECHO");
    reveal_strlit("SET");
    reveal_strlit("GET");
    reveal_strlit("DEL");
    reveal_strlit("EXISTS");
    reveal_strlit("INCR");
    assert("INCR"@[0] != "PING"@[0]);
    assert("INCR"@[0] != "ECHO"@[0]);
    assert("INCR"@.len() != "SET"@.len());
    assert("INCR"@.len() != "GET"@.len());
    assert("INCR"@.len() != "DEL"@.len());
    assert("INCR"@.len() != "EXISTS"@.len());
    assert("INCR"@[0] != "KEYS"@[0]);
    assert("INCR"@.len() != "HGETALL"@.len());
}

/// `run` reads the name `DECR` as the `DECR` command.
proof fn lemma_runs_decr(s: Keyspace, a: Seq<Seq<u8>>, now: u64)
    ensures
        "DECR"@ != "KEYS"@,
        "DECR"@ != "HGETALL"@,
        run(s, "DECR"@, a, now) == incr_cmd(s, a, now, -1),
{
    reveal_strlit("KEYS");
    reveal_strlit("HGETALL");
    reveal_strlit("PING");
    reveal_strlit("ECHO");
    reveal_strlit("SET");
    reveal_strlit("GET");
    reveal_strlit("DEL");
    reveal_strlit("EXISTS");
    reveal_strlit("INCR");
    reveal_strlit("DECR");
    assert("DECR"@[0] != "PING"@[0]);
    assert("DECR"@[0] != "ECHO"@[0]);
    assert("DECR"@.len() != "SET"@.len());
    assert("DECR"@.len() != "GET"@.len());
    assert("DECR"@.len() != "DEL"@.len());
    assert("DECR"@.len() != "EXISTS"@.len());
    assert("DECR"@[0] != "INCR"@[0]);
    assert("DECR"@[0] != "KEYS"@[0]);
    assert("DECR"@.len() != "HGETALL"@.len());
}

/// `run` reads the name `INCRBY` as the `INCRBY` command.
proof fn lemma_runs_incrby(s: Keyspace, a: Seq<Seq<u8>>, now: u64)
    ensures
        "INCRBY"@ != "KEYS"@,
        "INCRBY"@ != "HGETALL"@,
        run(s, "INCRBY"@, a, now) == incrby_cmd(s, a, now, false),
{
    reveal_strlit("KEYS");
    reveal_strlit("HGETALL");
    reveal_strlit("PING");
    reveal_strlit("ECHO");
    reveal_strlit("SET");
    reveal_strlit("GET");
    reveal_strlit("DEL");
    reveal_strlit("EXISTS");
    reveal_strlit("INCR");
    reveal_strlit("DECR");
    reveal_strlit("INCRBY");
    assert("INCRBY"@.len() != "PING"@.len());
    assert("INCRBY"@.len() != "ECHO"@.len());
    assert("INCRBY"@.len() != "SET"@.len());
    assert("INCRBY"@.len() != "GET"@.len());
    assert("INCRBY"@.len() != "DEL"@.len());
    assert("INCRBY"@[0] != "EXISTS"@[0]);
    assert("INCRBY"@.len() != "INCR"@.len());
    assert("INCRBY"@.len() != "DECR"@.len());
    assert("INCRBY"@.len() != "KEYS"@.len());
    assert("INCRBY"@.len() != "HGETALL"@.len());
}

/// `run` reads the name `DECRBY` as the `DECRBY` command.
proof fn lemma_runs_decrby(s: Keyspace, a: Seq<Seq<u8>>, now: u64)
    ensures
        "DECRBY"@ != "KEYS"@,
        "DECRBY"@ != "HGETALL"@,
        run(s, "DECRBY"@, a, now) == incrby_cmd(s, a, now, true),
{
    reveal_strlit("KEYS");
    reveal_strlit("HGETALL");
    reveal_strlit("PING");
    reveal_strlit("ECHO");
    reveal_strlit("SET");
    reveal_strlit("GET");
    reveal_strlit("DEL");
    reveal_strlit("EXISTS");
    reveal_strlit("INCR");
    reveal_strlit("DECR");
    reveal_strlit("INCRBY");
    reveal_strlit("DECRBY");
    assert("DECRBY"@.len() != "PING"@.len());
    assert("DECRBY"@.len() != "ECHO"@.len());
    assert("DECRBY"@.len() != "SET"@.len());
    assert("DECRBY"@.len() != "GET"@.len());
    assert("DECRBY"@.len() != "DEL"@.len());
    assert("DECRBY"@[0] != "EXISTS"@[0]);
    assert("DECRBY"@.len() != "INCR"@.len());
    assert("DECRBY"@.len() != "DECR"@.len());
    assert("DECRBY"@[0] != "INCRBY"@[0]);
    assert("DECRBY"@.len() != "KEYS"@.len());
    assert("DECRBY"@.len() != "HGETALL"@.len());
}

/// `run` reads the name `APPEND` as the `APPEND` command.
proof fn lemma_runs_append(s: Keyspace, a: Seq<Seq<u8>>, now: u64)
    ensures
        "APPEND"@ != "KEYS"@,
        "APPEND"@ != "HGETALL"@,
        run(s, "APPEND"@, a, now) == append_cmd(s, a, now),
{
    reveal_strlit("KEYS");
    reveal_strlit("HGETALL");
    reveal_strlit("PING");
    reveal_strlit("ECHO");
    reveal_strlit("SET");
    reveal_strlit("GET");
    reveal_strlit("DEL");
    reveal_strlit("EXISTS");
    reveal_strlit("INCR");
    reveal_strlit("DECR");
    reveal_strlit("INCRBY");
    reveal_strlit("DECRBY");
    reveal_strlit("APPEND");
    assert("APPEND"@.len() != "PING"@.len());
    assert("APPEND"@.len() != "ECHO"@.len());
    assert("APPEND"@.len() != "SET"@.len());
    assert("APPEND"@.len() != "GET"@.len());
    assert("APPEND"@.len() != "DEL"@.len());
    assert("APPEND"@[0] != "EXISTS"@[0]);
    assert("APPEND"@.len() != "INCR"@.len());
    assert("APPEND"@.len() != "DECR"@.len());
    assert("APPEND"@[0] != "INCRBY"@[0]);
    assert("APPEND"@[0] != "DECRBY"@[0]);
    assert("APPEND"@.len() != "KEYS"@.len());
    assert("APPEND"@.len() != "HGETALL"@.len());
}

/// `run` reads the name `STRLEN` as the `STRLEN` command.
proof fn lemma_runs_strlen(s: Keyspace, a: Seq<Seq<u8>>, now: u64)
    ensures
        "STRLEN"@ != "KEYS"@,
        "STRLEN"@ != "HGETALL"@,
        run(s, "STRLEN"@, a, now) == strlen_cmd(s, a, now),
{
    reveal_strlit("KEYS");
    reveal_strlit("HGETALL");
    reveal_strlit("PING");
    reveal_strlit("ECHO");
    reveal_strlit("SET");
    reveal_strlit("GET");
    reveal_strlit("DEL");
    reveal_strlit("EXISTS");
    reveal_strlit("INCR");
    reveal_strlit("DECR");
    reveal_strlit("INCRBY");
    reveal_strlit("DECRBY");
    reveal_strlit("APPEND");
    reveal_strlit("STRLEN");
    assert("STRLEN"@.len() != "PING"@.len());
    assert("STRLEN"@.len() != "ECHO"@.len());
    assert("STRLEN"@.len() != "SET"@.len());
    assert("STRLEN"@.len() != "GET"@.len());
    assert("STRLEN"@.len() != "DEL"@.len());
    assert("STRLEN"@[0] != "EXISTS"@[0]);
    assert("STRLEN"@.len() != "INCR"@.len());
    assert("STRLEN"@.len() != "DECR"@.len());
    assert("STRLEN"@[0] != "INCRBY"@[0]);
    assert("STRLEN"@[0] != "DECRBY"@[0]);
    assert("STRLEN"@[0] != "APPEND"@[0]);
    assert("STRLEN"@.len() != "KEYS"@.len());
    assert("STRLEN"@.len() != "HGETALL"@.len());
}

/// `run` reads the name `TYPE` as the `TYPE` command.
proof fn lemma_runs_type(s: Keyspace, a: Seq<Seq<u8>>, now: u64)
    ensures
        "TYPE"@ != "KEYS"@,
        "TYPE"@ != "HGETALL"@,
        run(s, "TYPE"@, a, now) == type_cmd(checked(s, a, now, 2), a),
{
    reveal_strlit("KEYS");
    reveal_strlit("HGETALL");
    reveal_strlit("PING");
    reveal_strlit("ECHO");
    reveal_strlit("SET");
    reveal_strlit("GET");
    reveal_strlit("DEL");
    reveal_strlit("EXISTS");
    reveal_strlit("INCR");
    reveal_strlit("DECR");
    reveal_strlit("INCRBY");
    reveal_strlit("DECRBY");
    reveal_strlit("APPEND");
    reveal_strlit("STRLEN");
    reveal_strlit("TYPE");
    assert("TYPE"@[0] != "PING"@[0]);
    assert("TYPE"@[0] != "ECHO"@[0]);
    assert("TYPE"@.len() != "SET"@.len());
    assert("TYPE"@.len() != "GET"@.len());
    assert("TYPE"@.len() != "DEL"@.len());
    assert("TYPE"@.len() != "EXISTS"@.len());
    assert("TYPE"@[0] != "INCR"@[0]);
    assert("TYPE"@[0] != "DECR"@[0]);
    assert("TYPE"@.len() != "INCRBY"@.len());
    assert("TYPE"@.len() != "DECRBY"@.len());
    assert("TYPE"@.len() != "APPEND"@.len());
    assert("TYPE"@.len() != "STRLEN"@.len());
    assert("TYPE"@[0] != "KEYS"@[0]);
    assert("TYPE"@.len() != "HGETALL"@.len());
}

/// `run` reads the name `LLEN` as the `LLEN` command.
proof fn lemma_runs_llen(s: Keyspace, a: Seq<Seq<u8>>, now: u64)
    ensures
        "LLEN"@ != "KEYS"@,
        "LLEN"@ != "HGETALL"@,
        run(s, "LLEN"@, a, now) == llen_cmd(expired(s, llen_key(a), now), a),
{
    reveal_strlit("KEYS");
    reveal_strlit("HGETALL");
    reveal_strlit("PING");
    reveal_strlit("ECHO");
    reveal_strlit("SET");
    reveal_strlit("GET");
    reveal_strlit("DEL");
    reveal_strlit("EXISTS");
    reveal_strlit("INCR");
    reveal_strlit("DECR");
    reveal_strlit("INCRBY");
    reveal_strlit("DECRBY");
    reveal_strlit("APPEND");
    reveal_strlit("STRLEN");
    reveal_strlit("TYPE");
    reveal_strlit("EXPIRE");
    reveal_strlit("TTL");
    reveal_strlit("PERSIST");
    reveal_strlit("DBSIZE");
    reveal_strlit("FLUSHALL");
    reveal_strlit("FLUSHDB");
    reveal_strlit("LPUSH");
    reveal_strlit("RPUSH");
    reveal_strlit("LPOP");
    reveal_strlit("RPOP");
    reveal_strlit("LLEN");
    assert("LLEN"@[0] != "PING"@[0]);
    assert("LLEN"@[0] != "ECHO"@[0]);
    assert("LLEN"@.len() != "SET"@.len());
    assert("LLEN"@.len() != "GET"@.len());
    assert("LLEN"@.len() != "DEL"@.len());
    assert("LLEN"@.len() != "EXISTS"@.len());
    assert("LLEN"@[0] != "INCR"@[0]);
    assert("LLEN"@[0] != "DECR"@[0]);
    assert("LLEN"@.len() != "INCRBY"@.len());
    assert("LLEN"@.len() != "DECRBY"@.len());
    assert("LLEN"@.len() != "APPEND"@.len());
    assert("LLEN"@.len() != "STRLEN"@.len());
    assert("LLEN"@[0] != "TYPE"@[0]);
    assert("LLEN"@.len() != "EXPIRE"@.len());
    assert("LLEN"@.len() != "TTL"@.len());
    assert("LLEN"@.len() != "PERSIST"@.len());
    assert("LLEN"@.len() != "DBSIZE"@.len());
    assert("LLEN"@.len() != "FLUSHALL"@.len());
    assert("LLEN"@.len() != "FLUSHDB"@.len());
    assert("LLEN"@.len() != "LPUSH"@.len());
    assert("LLEN"@.len() != "RPUSH"@.len());
    assert("LLEN"@[1] != "LPOP"@[1]);
    assert("LLEN"@[0] != "RPOP"@[0]);
    assert("LLEN"@[0] != "KEYS"@[0]);
    assert("LLEN"@.len() != "HGETALL"@.len());
}

/// `run` reads the name `HDEL` as the `HDEL` command.
proof fn lemma_runs_hdel(s: Keyspace, a: Seq<Seq<u8>>, now: u64)
    ensures
        "HDEL"@ != "KEYS"@,
        "HDEL"@ != "HGETALL"@,
        run(s, "HDEL"@, a, now) == hdel_cmd(checked(s, a, now, 3), a),
{
    reveal_strlit("KEYS");
    reveal_strlit("HGETALL");
    reveal_strlit("PING");
    reveal_strlit("ECHO");
    reveal_strlit("SET");
    reveal_strlit("GET");
    reveal_strlit("DEL");
    reveal_strlit("EXISTS");
    reveal_strlit("INCR");
    reveal_strlit("DECR");
    reveal_strlit("INCRBY");
    reveal_strlit("DECRBY");
    reveal_strlit("APPEND");
    reveal_strlit("STRLEN");
    reveal_strlit("TYPE");
    reveal_strlit("EXPIRE");
    reveal_strlit("TTL");
    reveal_strlit("PERSIST");
    reveal_strlit("DBSIZE");
    reveal_strlit("FLUSHALL");
    reveal_strlit("FLUSHDB");
    reveal_strlit("LPUSH");
    reveal_strlit("RPUSH");
    reveal_strlit("LPOP");
    reveal_strlit("RPOP");
    reveal_strlit("LLEN");
    reveal_strlit("LRANGE");
    reveal_strlit("HSET");
    reveal_strlit("HGET");
    reveal_strlit("HDEL");
    assert("HDEL"@[0] != "PING"@[0]);
    assert("HDEL"@[0] != "ECHO"@[0]);
    assert("HDEL"@.len() != "SET"@.len());
    assert("HDEL"@.len() != "GET"@.len());
    assert("HDEL"@.len() != "DEL"@.len());
    assert("HDEL"@.len() != "EXISTS"@.len());
    assert("HDEL"@[0] != "INCR"@[0]);
    assert("HDEL"@[0] != "DECR"@[0]);
    assert("HDEL"@.len() != "INCRBY"@.len());
    assert("HDEL"@.len() != "DECRBY"@.len());
    assert("HDEL"@.len() != "APPEND"@.len());
    assert("HDEL"@.len() != "STRLEN"@.len());
    assert("HDEL"@[0] != "TYPE"@[0]);
    assert("HDEL"@.len() != "EXPIRE"@.len());
    assert("HDEL"@.len() != "TTL"@.len());
    assert("HDEL"@.len() != "PERSIST"@.len());
    assert("HDEL"@.len() != "DBSIZE"@.len());
    assert("HDEL"@.len() != "FLUSHALL"@.len());
    assert("HDEL"@.len() != "FLUSHDB"@.len());
    assert("HDEL"@.len() != "LPUSH"@.len());
    assert("HDEL"@.len() != "RPUSH"@.len());
    assert("HDEL"@[0] != "LPOP"@[0]);
    assert("HDEL"@[0] != "RPOP"@[0]);
    assert("HDEL"@[0] != "LLEN"@[0]);
    assert("HDEL"@.len() != "LRANGE"@.len());
    assert("HDEL"@[1] != "HSET"@[1]);
    assert("HDEL"@[1] != "HGET"@[1]);
    assert("HDEL"@[0] != "KEYS"@[0]);
    assert("HDEL"@.len() != "HGETALL"@.len());
}

/// `run` reads the name `HLEN` as the `HLEN` command.
proof fn lemma_runs_hlen(s: Keyspace, a: Seq<Seq<u8>>, now: u64)
    ensures
        "HLEN"@ != "KEYS"@,
        "HLEN"@ != "HGETALL"@,
        run(s, "HLEN"@, a, now) == hlen_cmd(checked(s, a, now, 2), a),
{
    reveal_strlit("KEYS");
    reveal_strlit("HGETALL");
    reveal_strlit("PING");
    reveal_strlit("ECHO");
    reveal_strlit("SET");
    reveal_strlit("GET");
    reveal_strlit("DEL");
    reveal_strlit("EXISTS");
    reveal_strlit("INCR");
    reveal_strlit("DECR");
    reveal_strlit("INCRBY");
    reveal_strlit("DECRBY");
    reveal_strlit("APPEND");
    reveal_strlit("STRLEN");
    reveal_strlit("TYPE");
    reveal_strlit("EXPIRE");
    reveal_strlit("TTL");
    reveal_strlit("PERSIST");
    reveal_strlit("DBSIZE");
    reveal_strlit("FLUSHALL");
    reveal_strlit("FLUSHDB");
    reveal_strlit("LPUSH");
    reveal_strlit("RPUSH");
    reveal_strlit("LPOP");
    reveal_strlit("RPOP");
    reveal_strlit("LLEN");
    reveal_strlit("LRANGE");
    reveal_strlit("HSET");
    reveal_strlit("HGET");
    reveal_strlit("HDEL");
    reveal_strlit("HLEN");
    assert("HLEN"@[0] != "PING"@[0]);
    assert("HLEN"@[0] != "ECHO"@[0]);
    assert("HLEN"@.len() != "SET"@.len());
    assert("HLEN"@.len() != "GET"@.len());
    assert("HLEN"@.len() != "DEL"@.len());
    assert("HLEN"@.len() != "EXISTS"@.len());
    assert("HLEN"@[0] != "INCR"@[0]);
    assert("HLEN"@[0] != "DECR"@[0]);
    assert("HLEN"@.len() != "INCRBY"@.len());
    assert("HLEN"@.len() != "DECRBY"@.len());
    assert("HLEN"@.len() != "APPEND"@.len());
    assert("HLEN"@.len() != "STRLEN"@.len());
    assert("HLEN"@[0] != "TYPE"@[0]);
    assert("HLEN"@.len() != "EXPIRE"@.len());
    assert("HLEN"@.len() != "TTL"@.len());
    assert("HLEN"@.len() != "PERSIST"@.len());
    assert("HLEN"@.len() != "DBSIZE"@.len());
    assert("HLEN"@.len() != "FLUSHALL"@.len());
    assert("HLEN"@.len() != "FLUSHDB"@.len());
    assert("HLEN"@.len() != "LPUSH"@.len());
    assert("HLEN"@.len() != "RPUSH"@.len());
    assert("HLEN"@[0] != "LPOP"@[0]);
    assert("HLEN"@[0] != "RPOP"@[0]);
    assert("HLEN"@[0] != "LLEN"@[0]);
    assert("HLEN"@.len() != "LRANGE"@.len());
    assert("HLEN"@[1] != "HSET"@[1]);
    assert("HLEN"@[1] != "HGET"@[1]);
    assert("HLEN"@[1] != "HDEL"@[1]);
    assert("HLEN"@[0] != "KEYS"@[0]);
    assert("HLEN"@.len() != "HGETALL"@.len());
}

/// `run` reads the name `EXPIRE` as the `EXPIRE` command.
proof fn lemma_runs_expire(s: Keyspace, a: Seq<Seq<u8>>, now: u64)
    ensures
        "EXPIRE"@ != "KEYS"@,
        "EXPIRE"@ != "HGETALL"@,
        run(s, "EXPIRE"@, a, now) == expire_cmd(s, a, now),
{
    reveal_strlit("KEYS");
    reveal_strlit("HGETALL");
    reveal_strlit("PING");
    reveal_strlit("ECHO");
    reveal_strlit("SET");
    reveal_strlit("GET");
    reveal_strlit("DEL");
    reveal_strlit("EXISTS");
    reveal_strlit("INCR");
    reveal_strlit("DECR");
    reveal_strlit("INCRBY");
    reveal_strlit("DECRBY");
    reveal_strlit("APPEND");
    reveal_strlit("STRLEN");
    reveal_strlit("TYPE");
    reveal_strlit("EXPIRE");
    assert("EXPIRE"@.len() != "PING"@.len());
    assert("EXPIRE"@.len() != "ECHO"@.len());
    assert("EXPIRE"@.len() != "SET"@.len());
    assert("EXPIRE"@.len() != "GET"@.len());
    assert("EXPIRE"@.len() != "DEL"@.len());
    assert("EXPIRE"@[2] != "EXISTS"@[2]);
    assert("EXPIRE"@.len() != "INCR"@.len());
    assert("EXPIRE"@.len() != "DECR"@.len());
    assert("EXPIRE"@[0] != "INCRBY"@[0]);
    assert("EXPIRE"@[0] != "DECRBY"@[0]);
    assert("EXPIRE"@[0] != "APPEND"@[0]);
    assert("EXPIRE"@[0] != "STRLEN"@[0]);
    assert("EXPIRE"@.len() != "TYPE"@.len());
    assert("EXPIRE"@.len() != "KEYS"@.len());
    assert("EXPIRE"@.len() != "HGETALL"@.len());
}

/// `run` reads the name `TTL` as the `TTL` command.
proof fn lemma_runs_ttl(s: Keyspace, a: Seq<Seq<u8>>, now: u64)
    ensures
        "TTL"@ != "KEYS"@,
        "TTL"@ != "HGETALL"@,
        run(s, "TTL"@, a, now) == ttl_cmd(s, a, now),
{
    reveal_strlit("KEYS");
    reveal_strlit("HGETALL");
    reveal_strlit("PING");
    reveal_strlit("ECHO");
    reveal_strlit("SET");
    reveal_strlit("GET");
    reveal_strlit("DEL");
    reveal_strlit("EXISTS");
    reveal_strlit("INCR");
    reveal_strlit("DECR");
    reveal_strlit("INCRBY");
    reveal_strlit("DECRBY");
    reveal_strlit("APPEND");
    reveal_strlit("STRLEN");
    reveal_strlit("TYPE");
    reveal_strlit("EXPIRE");
    reveal_strlit("TTL");
    assert("TTL"@.len() != "PING"@.len());
    assert("TTL"@.len() != "ECHO"@.len());
    assert("TTL"@[0] != "SET"@[0]);
    assert("TTL"@[0] != "GET"@[0]);
    assert("TTL"@[0] != "DEL"@[0]);
    assert("TTL"@.len() != "EXISTS"@.len());
    assert("TTL"@.len() != "INCR"@.len());
    assert("TTL"@.len() != "DECR"@.len());
    assert("TTL"@.len() != "INCRBY"@.len());
    assert("TTL"@.len() != "DECRBY"@.len());
    assert("TTL"@.len() != "APPEND"@.len());
    assert("TTL"@.len() != "STRLEN"@.len());
    assert("TTL"@.len() != "TYPE"@.len());
    assert("TTL"@.len() != "EXPIRE"@.len());
    assert("TTL"@.len() != "KEYS"@.len());
    assert("TTL"@.len() != "HGETALL"@.len());
}

/// `run` reads the name `PERSIST` as the `PERSIST` command.
proof fn lemma_runs_persist(s: Keyspace, a: Seq<Seq<u8>>, now: u64)
    ensures
        "PERSIST"@ != "KEYS"@,
        "PERSIST"@ != "HGETALL"@,
        run(s, "PERSIST"@, a, now) == persist_cmd(checked(s, a, now, 2), a),
{
    reveal_strlit("KEYS");
    reveal_strlit("HGETALL");
    reveal_strlit("PING");
    reveal_strlit("ECHO");
    reveal_strlit("SET");
    reveal_strlit("GET");
    reveal_strlit("DEL");
    reveal_strlit("EXISTS");
    reveal_strlit("INCR");
    reveal_strlit("DECR");
    reveal_strlit("INCRBY");
    reveal_strlit("DECRBY");
    reveal_strlit("APPEND");
    reveal_strlit("STRLEN");
    reveal_strlit("TYPE");
    reveal_strlit("EXPIRE");
    reveal_strlit("TTL");
    reveal_strlit("PERSIST");
    assert("PERSIST"@.len() != "PING"@.len());
    assert("PERSIST"@.len() != "ECHO"@.len());
    assert("PERSIST"@.len() != "SET"@.len());
    assert("PERSIST"@.len() != "GET"@.len());
    assert("PERSIST"@.len() != "DEL"@.len());
    assert("PERSIST"@.len() != "EXISTS"@.len());
    assert("PERSIST"@.len() != "INCR"@.len());
    assert("PERSIST"@.len() != "DECR"@.len());
    assert("PERSIST"@.len() != "INCRBY"@.len());
    assert("PERSIST"@.len() != "DECRBY"@.len());
    assert("PERSIST"@.len() != "APPEND"@.len());
    assert("PERSIST"@.len() != "STRLEN"@.len());
    assert("PERSIST"@.len() != "TYPE"@.len());
    assert("PERSIST"@.len() != "EXPIRE"@.len());
    assert("PERSIST"@.len() != "TTL"@.len());
    assert("PERSIST"@.len() != "KEYS"@.len());
    assert("PERSIST"@[0] != "HGETALL"@[0]);
}

/// `run` reads the name `DBSIZE` as the `DBSIZE` command.
proof fn lemma_runs_dbsize(s: Keyspace, a: Seq<Seq<u8>>, now: u64)
    ensures
        "DBSIZE"@ != "KEYS"@,
        "DBSIZE"@ != "HGETALL"@,
        run(s, "DBSIZE"@, a, now) == Some((s, count_reply(s.data.len() as int))),
{
    reveal_strlit("KEYS");
    reveal_strlit("HGETALL");
    reveal_strlit("PING");
    reveal_strlit("ECHO");
    reveal_strlit("SET");
    reveal_strlit("GET");
    reveal_strlit("DEL");
    reveal_strlit("EXISTS");
    reveal_strlit("INCR");
    reveal_strlit("DECR");
    reveal_strlit("INCRBY");
    reveal_strlit("DECRBY");
    reveal_strlit("APPEND");
    reveal_strlit("STRLEN");
    reveal_strlit("TYPE");
    reveal_strlit("EXPIRE");
    reveal_strlit("TTL");
    reveal_strlit("PERSIST");
    reveal_strlit("DBSIZE");
    assert("DBSIZE"@.len() != "PING"@.len());
    assert("DBSIZE"@.len() != "ECHO"@.len());
    assert("DBSIZE"@.len() != "SET"@.len());
    assert("DBSIZE"@.len() != "GET"@.len());
    assert("DBSIZE"@.len() != "DEL"@.len());
    assert("DBSIZE"@[0] != "EXISTS"@[0]);
    assert("DBSIZE"@.len() != "INCR"@.len());
    assert("DBSIZE"@.len() != "DECR"@.len());
    assert("DBSIZE"@[0] != "INCRBY"@[0]);
    assert("DBSIZE"@[1] != "DECRBY"@[1]);
    assert("DBSIZE"@[0] != "APPEND"@[0]);
    assert("DBSIZE"@[0] != "STRLEN"@[0]);
    assert("DBSIZE"@.len() != "TYPE"@.len());
    assert("DBSIZE"@[0] != "EXPIRE"@[0]);
    assert("DBSIZE"@.len() != "TTL"@.len());
    assert("DBSIZE"@.len() != "PERSIST"@.len());
    assert("DBSIZE"@.len() != "KEYS"@.len());
    assert("DBSIZE"@.len() != "HGETALL"@.len());
}

/// `run` reads the name `FLUSHALL` as the `FLUSHALL` command.
proof fn lemma_runs_flushall(s: Keyspace, a: Seq<Seq<u8>>, now: u64)
    ensures
        "FLUSHALL"@ != "KEYS"@,
        "FLUSHALL"@ != "HGETALL"@,
        run(s, "FLUSHALL"@, a, now) == Some((Keyspace { data: Map::empty(), expires: Map::empty(), ..s }, ok_reply())),
{
    reveal_strlit("KEYS");
    reveal_strlit("HGETALL");
    reveal_strlit("PING");
    reveal_strlit("ECHO");
    reveal_strlit("SET");
    reveal_strlit("GET");
    reveal_strlit("DEL");
    reveal_strlit("EXISTS");
    reveal_strlit("INCR");
    reveal_strlit("DECR");
    reveal_strlit("INCRBY");
    reveal_strlit("DECRBY");
    reveal_strlit("APPEND");
    reveal_strlit("STRLEN");
    reveal_strlit("TYPE");
    reveal_strlit("EXPIRE");
    reveal_strlit("TTL");
    reveal_strlit("PERSIST");
    reveal_strlit("DBSIZE");
    reveal_strlit("FLUSHALL");
    assert("FLUSHALL"@.len() != "PING"@.len());
    assert("FLUSHALL"@.len() != "ECHO"@.len());
    assert("FLUSHALL"@.len() != "SET"@.len());
    assert("FLUSHALL"@.len() != "GET"@.len());
    assert("FLUSHALL"@.len() != "DEL"@.len());
    assert("FLUSHALL"@.len() != "EXISTS"@.len());
    assert("FLUSHALL"@.len() != "INCR"@.len());
    assert("FLUSHALL"@.len() != "DECR"@.len());
    assert("FLUSHALL"@.len() != "INCRBY"@.len());
    assert("FLUSHALL"@.len() != "DECRBY"@.len());
    assert("FLUSHALL"@.len() != "APPEND"@.len());
    assert("FLUSHALL"@.len() != "STRLEN"@.len());
    assert("FLUSHALL"@.len() != "TYPE"@.len());
    assert("FLUSHALL"@.len() != "EXPIRE"@.len());
    assert("FLUSHALL"@.len() != "TTL"@.len());
    assert("FLUSHALL"@.len() != "PERSIST"@.len());
    assert("FLUSHALL"@.len() != "DBSIZE"@.len());
    assert("FLUSHALL"@.len() != "KEYS"@.len());
    assert("FLUSHALL"@.len() != "HGETALL"@.len());
}

/// `run` reads the name `LPUSH` as the `LPUSH` command.
proof fn lemma_runs_lpush(s: Keyspace, a: Seq<Seq<u8>>, now: u64)
    ensures
        "LPUSH"@ != "KEYS"@,
        "LPUSH"@ != "HGETALL"@,
        run(s, "LPUSH"@, a, now) == push_cmd(s, a, now, true),
{
    reveal_strlit("KEYS");
    reveal_strlit("HGETALL");
    reveal_strlit("PING");
    reveal_strlit("ECHO");
    reveal_strlit("SET");
    reveal_strlit("GET");
    reveal_strlit("DEL");
    reveal_strlit("EXISTS");
    reveal_strlit("INCR");
    reveal_strlit("DECR");
    reveal_strlit("INCRBY");
    reveal_strlit("DECRBY");
    reveal_strlit("APPEND");
    reveal_strlit("STRLEN");
    reveal_strlit("TYPE");
    reveal_strlit("EXPIRE");
    reveal_strlit("TTL");
    reveal_strlit("PERSIST");
    reveal_strlit("DBSIZE");
    reveal_strlit("FLUSHALL");
    reveal_strlit("FLUSHDB");
    reveal_strlit("LPUSH");
    assert("LPUSH"@.len() != "PING"@.len());
    assert("LPUSH"@.len() != "ECHO"@.len());
    assert("LPUSH"@.len() != "SET"@.len());
    assert("LPUSH"@.len() != "GET"@.len());
    assert("LPUSH"@.len() != "DEL"@.len());
    assert("LPUSH"@.len() != "EXISTS"@.len());
    assert("LPUSH"@.len() != "INCR"@.len());
    assert("LPUSH"@.len() != "DECR"@.len());
    assert("LPUSH"@.len() != "INCRBY"@.len());
    assert("LPUSH"@.len() != "DECRBY"@.len());
    assert("LPUSH"@.len() != "APPEND"@.len());
    assert("LPUSH"@.len() != "STRLEN"@.len());
    assert("LPUSH"@.len() != "TYPE"@.len());
    assert("LPUSH"@.len() != "EXPIRE"@.len());
    assert("LPUSH"@.len() != "TTL"@.len());
    assert("LPUSH"@.len() != "PERSIST"@.len());
    assert("LPUSH"@.len() != "DBSIZE"@.len());
    assert("LPUSH"@.len() != "FLUSHALL"@.len());
    assert("LPUSH"@.len() != "FLUSHDB"@.len());
    assert("LPUSH"@.len() != "KEYS"@.len());
    assert("LPUSH"@.len() != "HGETALL"@.len());
}

/// `run` reads the name `RPUSH` as the `RPUSH` command.
proof fn lemma_runs_rpush(s: Keyspace, a: Seq<Seq<u8>>, now: u64)
    ensures
        "RPUSH"@ != "KEYS"@,
        "RPUSH"@ != "HGETALL"@,
        run(s, "RPUSH"@, a, now) == push_cmd(s, a, now, false),
{
    reveal_strlit("KEYS");
    reveal_strlit("HGETALL");
    reveal_strlit("PING");
    reveal_strlit("ECHO");
    reveal_strlit("SET");
    reveal_strlit("GET");
    reveal_strlit("DEL");
    reveal_strlit("EXISTS");
    reveal_strlit("INCR");
    reveal_strlit("DECR");
    reveal_strlit("INCRBY");
    reveal_strlit("DECRBY");
    reveal_strlit("APPEND");
    reveal_strlit("STRLEN");
    reveal_strlit("TYPE");
    reveal_strlit("EXPIRE");
    reveal_strlit("TTL");
    reveal_strlit("PERSIST");
    reveal_strlit("DBSIZE");
    reveal_strlit("FLUSHALL");
    reveal_strlit("FLUSHDB");
    reveal_strlit("LPUSH");
    reveal_strlit("RPUSH");
    assert("RPUSH"@.len() != "PING"@.len());
    assert("RPUSH"@.len() != "ECHO"@.len());
    assert("RPUSH"@.len() != "SET"@.len());
    assert("RPUSH"@.len() != "GET"@.len());
    assert("RPUSH"@.len() != "DEL"@.len());
    assert("RPUSH"@.len() != "EXISTS"@.len());
    assert("RPUSH"@.len() != "INCR"@.len());
    assert("RPUSH"@.len() != "DECR"@.len());
    assert("RPUSH"@.len() != "INCRBY"@.len());
    assert("RPUSH"@.len() != "DECRBY"@.len());
    assert("RPUSH"@.len() != "APPEND"@.len());
    assert("RPUSH"@.len() != "STRLEN"@.len());
    assert("RPUSH"@.len() != "TYPE"@.len());
    assert("RPUSH"@.len() != "EXPIRE"@.len());
    assert("RPUSH"@.len() != "TTL"@.len());
    assert("RPUSH"@.len() != "PERSIST"@.len());
    assert("RPUSH"@.len() != "DBSIZE"@.len());
    assert("RPUSH"@.len() != "FLUSHALL"@.len());
    assert("RPUSH"@.len() != "FLUSHDB"@.len());
    assert("RPUSH"@[0] != "LPUSH"@[0]);
    assert("RPUSH"@.len() != "KEYS"@.len());
    assert("RPUSH"@.len() != "HGETALL"@.len());
}

/// `run` reads the name `LPOP` as the `LPOP` command.
proof fn lemma_runs_lpop(s: Keyspace, a: Seq<Seq<u8>>, now: u64)
    ensures
        "LPOP"@ != "KEYS"@,
        "LPOP"@ != "HGETALL"@,
        run(s, "LPOP"@, a, now) == pop_cmd(s, a, now, true),
{
    reveal_strlit("KEYS");
    reveal_strlit("HGETALL");
    reveal_strlit("PING");
    reveal_strlit("ECHO");
    reveal_strlit("SET");
    reveal_strlit("GET");
    reveal_strlit("DEL");
    reveal_strlit("EXISTS");
    reveal_strlit("INCR");
    reveal_strlit("DECR");
    reveal_strlit("INCRBY");
    reveal_strlit("DECRBY");
    reveal_strlit("APPEND");
    reveal_strlit("STRLEN");
    reveal_strlit("TYPE");
    reveal_strlit("EXPIRE");
    reveal_strlit("TTL");
    reveal_strlit("PERSIST");
    reveal_strlit("DBSIZE");
    reveal_strlit("FLUSHALL");
    reveal_strlit("FLUSHDB");
    reveal_strlit("LPUSH");
    reveal_strlit("RPUSH");
    reveal_strlit("LPOP");
    assert("LPOP"@[0] != "PING"@[0]);
    assert("LPOP"@[0] != "ECHO"@[0]);
    assert("LPOP"@.len() != "SET"@.len());
    assert("LPOP"@.len() != "GET"@.len());
    assert("LPOP"@.len() != "DEL"@.len());
    assert("LPOP"@.len() != "EXISTS"@.len());
    assert("LPOP"@[0] != "INCR"@[0]);
    assert("LPOP"@[0] != "DECR"@[0]);
    assert("LPOP"@.len() != "INCRBY"@.len());
    assert("LPOP"@.len() != "DECRBY"@.len());
    assert("LPOP"@.len() != "APPEND"@.len());
    assert("LPOP"@.len() != "STRLEN"@.len());
    assert("LPOP"@[0] != "TYPE"@[0]);
    assert("LPOP"@.len() != "EXPIRE"@.len());
    assert("LPOP"@.len() != "TTL"@.len());
    assert("LPOP"@.len() != "PERSIST"@.len());
    assert("LPOP"@.len() != "DBSIZE"@.len());
    assert("LPOP"@.len() != "FLUSHALL"@.len());
    assert("LPOP"@.len() != "FLUSHDB"@.len());
    assert("LPOP"@.len() != "LPUSH"@.len());
    assert("LPOP"@.len() != "RPUSH"@.len());
    assert("LPOP"@[0] != "KEYS"@[0]);
    assert("LPOP"@.len() != "HGETALL"@.len());
}

/// `run` reads the name `RPOP` as the `RPOP` command.
proof fn lemma_runs_rpop(s: Keyspace, a: Seq<Seq<u8>>, now: u64)
    ensures
        "RPOP"@ != "KEYS"@,
        "RPOP"@ != "HGETALL"@,
        run(s, "RPOP"@, a, now) == pop_cmd(s, a, now, false),
{
    reveal_strlit("KEYS");
    reveal_strlit("HGETALL");
    reveal_strlit("PING");
    reveal_strlit("ECHO");
    reveal_strlit("SET");
    reveal_strlit("GET");
    reveal_strlit("DEL");
    reveal_strlit("EXISTS");
    reveal_strlit("INCR");
    reveal_strlit("DECR");
    reveal_strlit("INCRBY");
    reveal_strlit("DECRBY");
    reveal_strlit("APPEND");
    reveal_strlit("STRLEN");
    reveal_strlit("TYPE");
    reveal_strlit("EXPIRE");
    reveal_strlit("TTL");
    reveal_strlit("PERSIST");
    reveal_strlit("DBSIZE");
    reveal_strlit("FLUSHALL");
    reveal_strlit("FLUSHDB");
    reveal_strlit("LPUSH");
    reveal_strlit("RPUSH");
    reveal_strlit("LPOP");
    reveal_strlit("RPOP");
    assert("RPOP"@[0] != "PING"@[0]);
    assert("RPOP"@[0] != "ECHO"@[0]);
    assert("RPOP"@.len() != "SET"@.len());
    assert("RPOP"@.len() != "GET"@.len());
    assert("RPOP"@.len() != "DEL"@.len());
    assert("RPOP"@.len() != "EXISTS"@.len());
    assert("RPOP"@[0] != "INCR"@[0]);
    assert("RPOP"@[0] != "DECR"@[0]);
    assert("RPOP"@.len() != "INCRBY"@.len());
    assert("RPOP"@.len() != "DECRBY"@.len());
    assert("RPOP"@.len() != "APPEND"@.len());
    assert("RPOP"@.len() != "STRLEN"@.len());
    assert("RPOP"@[0] != "TYPE"@[0]);
    assert("RPOP"@.len() != "EXPIRE"@.len());
    assert("RPOP"@.len() != "TTL"@.len());
    assert("RPOP"@.len() != "PERSIST"@.len());
    assert("RPOP"@.len() != "DBSIZE"@.len());
    assert("RPOP"@.len() != "FLUSHALL"@.len());
    assert("RPOP"@.len() != "FLUSHDB"@.len());
    assert("RPOP"@.len() != "LPUSH"@.len());
    assert("RPOP"@.len() != "RPUSH"@.len());
    assert("RPOP"@[0] != "LPOP"@[0]);
    assert("RPOP"@[0] != "KEYS"@[0]);
    assert("RPOP"@.len() != "HGETALL"@.len());
}

/// `run` reads the name `LRANGE` as the `LRANGE` command.
proof fn lemma_runs_lrange(s: Keyspace, a: Seq<Seq<u8>>, now: u64)
    ensures
        "LRANGE"@ != "KEYS"@,
        "LRANGE"@ != "HGETALL"@,
        run(s, "LRANGE"@, a, now) == lrange_cmd(checked(s, a, now, 4), a),
{
    reveal_strlit("KEYS");
    reveal_strlit("HGETALL");
    reveal_strlit("PING");
    reveal_strlit("ECHO");
    reveal_strlit("SET");
    reveal_strlit("GET");
    reveal_strlit("DEL");
    reveal_strlit("EXISTS");
    reveal_strlit("INCR");
    reveal_strlit("DECR");
    reveal_strlit("INCRBY");
    reveal_strlit("DECRBY");
    reveal_strlit("APPEND");
    reveal_strlit("STRLEN");
    reveal_strlit("TYPE");
    reveal_strlit("EXPIRE");
    reveal_strlit("TTL");
    reveal_strlit("PERSIST");
    reveal_strlit("DBSIZE");
    reveal_strlit("FLUSHALL");
    reveal_strlit("FLUSHDB");
    reveal_strlit("LPUSH");
    reveal_strlit("RPUSH");
    reveal_strlit("LPOP");
    reveal_strlit("RPOP");
    reveal_strlit("LLEN");
    reveal_strlit("LRANGE");
    assert("LRANGE"@.len() != "PING"@.len());
    assert("LRANGE"@.len() != "ECHO"@.len());
    assert("LRANGE"@.len() != "SET"@.len());
    assert("LRANGE"@.len() != "GET"@.len());
    assert("LRANGE"@.len() != "DEL"@.len());
    assert("LRANGE"@[0] != "EXISTS"@[0]);
    assert("LRANGE"@.len() != "INCR"@.len());
    assert("LRANGE"@.len() != "DECR"@.len());
    assert("LRANGE"@[0] != "INCRBY"@[0]);
    assert("LRANGE"@[0] != "DECRBY"@[0]);
    assert("LRANGE"@[0] != "APPEND"@[0]);
    assert("LRANGE"@[0] != "STRLEN"@[0]);
    assert("LRANGE"@.len() != "TYPE"@.len());
    assert("LRANGE"@[0] != "EXPIRE"@[0]);
    assert("LRANGE"@.len() != "TTL"@.len());
    assert("LRANGE"@.len() != "PERSIST"@.len());
    assert("LRANGE"@[0] != "DBSIZE"@[0]);
    assert("LRANGE"@.len() != "FLUSHALL"@.len());
    assert("LRANGE"@.len() != "FLUSHDB"@.len());
    assert("LRANGE"@.len() != "LPUSH"@.len());
    assert("LRANGE"@.len() != "RPUSH"@.len());
    assert("LRANGE"@.len() != "LPOP"@.len());
    assert("LRANGE"@.len() != "RPOP"@.len());
    assert("LRANGE"@.len() != "LLEN"@.len());
    assert("LRANGE"@.len() != "KEYS"@.len());
    assert("LRANGE"@.len() != "HGETALL"@.len());
}

/// `run` reads the name `HSET` as the `HSET` command.
proof fn lemma_runs_hset(s: Keyspace, a: Seq<Seq<u8>>, now: u64)
    ensures
        "HSET"@ != "KEYS"@,
        "HSET"@ != "HGETALL"@,
        run(s, "HSET"@, a, now) == hset_cmd(checked(s, a, now, 4), a),
{
    reveal_strlit("KEYS");
    reveal_strlit("HGETALL");
    reveal_strlit("PING");
    reveal_strlit("ECHO");
    reveal_strlit("SET");
    reveal_strlit("GET");
    reveal_strlit("DEL");
    reveal_strlit("EXISTS");
    reveal_strlit("INCR");
    reveal_strlit("DECR");
    reveal_strlit("INCRBY");
    reveal_strlit("DECRBY");
    reveal_strlit("APPEND");
    reveal_strlit("STRLEN");
    reveal_strlit("TYPE");
    reveal_strlit("EXPIRE");
    reveal_strlit("TTL");
    reveal_strlit("PERSIST");
    reveal_strlit("DBSIZE");
    reveal_strlit("FLUSHALL");
    reveal_strlit("FLUSHDB");
    reveal_strlit("LPUSH");
    reveal_strlit("RPUSH");
    reveal_strlit("LPOP");
    reveal_strlit("RPOP");
    reveal_strlit("LLEN");
    reveal_strlit("LRANGE");
    reveal_strlit("HSET");
    assert("HSET"@[0] != "PING"@[0]);
    assert("HSET"@[0] != "ECHO"@[0]);
    assert("HSET"@.len() != "SET"@.len());
    assert("HSET"@.len() != "GET"@.len());
    assert("HSET"@.len() != "DEL"@.len());
    assert("HSET"@.len() != "EXISTS"@.len());
    assert("HSET"@[0] != "INCR"@[0]);
    assert("HSET"@[0] != "DECR"@[0]);
    assert("HSET"@.len() != "INCRBY"@.len());
    assert("HSET"@.len() != "DECRBY"@.len());
    assert("HSET"@.len() != "APPEND"@.len());
    assert("HSET"@.len() != "STRLEN"@.len());
    assert("HSET"@[0] != "TYPE"@[0]);
    assert("HSET"@.len() != "EXPIRE"@.len());
    assert("HSET"@.len() != "TTL"@.len());
    assert("HSET"@.len() != "PERSIST"@.len());
    assert("HSET"@.len() != "DBSIZE"@.len());
    assert("HSET"@.len() != "FLUSHALL"@.len());
    assert("HSET"@.len() != "FLUSHDB"@.len());
    assert("HSET"@.len() != "LPUSH"@.len());
    assert("HSET"@.len() != "RPUSH"@.len());
    assert("HSET"@[0] != "LPOP"@[0]);
    assert("HSET"@[0] != "RPOP"@[0]);
    assert("HSET"@[0] != "LLEN"@[0]);
    assert("HSET"@.len() != "LRANGE"@.len());
    assert("HSET"@[0] != "KEYS"@[0]);
    assert("HSET"@.len() != "HGETALL"@.len());
}

/// `run` reads the name `HGET` as the `HGET` command.
proof fn lemma_runs_hget(s: Keyspace, a: Seq<Seq<u8>>, now: u64)
    ensures
        "HGET"@ != "KEYS"@,
        "HGET"@ != "HGETALL"@,
        run(s, "HGET"@, a, now) == hget_cmd(checked(s, a, now, 3), a),
{
    reveal_strlit("KEYS");
    reveal_strlit("HGETALL");
    reveal_strlit("PING");
    reveal_strlit("ECHO");
    reveal_strlit("SET");
    reveal_strlit("GET");
    reveal_strlit("DEL");
    reveal_strlit("EXISTS");
    reveal_strlit("INCR");
    reveal_strlit("DECR");
    reveal_strlit("INCRBY");
    reveal_strlit("DECRBY");
    reveal_strlit("APPEND");
    reveal_strlit("STRLEN");
    reveal_strlit("TYPE");
    reveal_strlit("EXPIRE");
    reveal_strlit("TTL");
    reveal_strlit("PERSIST");
    reveal_strlit("DBSIZE");
    reveal_strlit("FLUSHALL");
    reveal_strlit("FLUSHDB");
    reveal_strlit("LPUSH");
    reveal_strlit("RPUSH");
    reveal_strlit("LPOP");
    reveal_strlit("RPOP");
    reveal_strlit("LLEN");
    reveal_strlit("LRANGE");
    reveal_strlit("HSET");
    reveal_strlit("HGET");
    assert("HGET"@[0] != "PING"@[0]);
    assert("HGET"@[0] != "ECHO"@[0]);
    assert("HGET"@.len() != "SET"@.len());
    assert("HGET"@.len() != "GET"@.len());
    assert("HGET"@.len() != "DEL"@.len());
    assert("HGET"@.len() != "EXISTS"@.len());
    assert("HGET"@[0] != "INCR"@[0]);
    assert("HGET"@[0] != "DECR"@[0]);
    assert("HGET"@.len() != "INCRBY"@.len());
    assert("HGET"@.len() != "DECRBY"@.len());
    assert("HGET"@.len() != "APPEND"@.len());
    assert("HGET"@.len() != "STRLEN"@.len());
    assert("HGET"@[0] != "TYPE"@[0]);
    assert("HGET"@.len() != "EXPIRE"@.len());
    assert("HGET"@.len() != "TTL"@.len());
    assert("HGET"@.len() != "PERSIST"@.len());
    assert("HGET"@.len() != "DBSIZE"@.len());
    assert("HGET"@.len() != "FLUSHALL"@.len());
    assert("HGET"@.len() != "FLUSHDB"@.len());
    assert("HGET"@.len() != "LPUSH"@.len());
    assert("HGET"@.len() != "RPUSH"@.len());
    assert("HGET"@[0] != "LPOP"@[0]);
    assert("HGET"@[0] != "RPOP"@[0]);
    assert("HGET"@[0] != "LLEN"@[0]);
    assert("HGET"@.len() != "LRANGE"@.len());
    assert("HGET"@[1] != "HSET"@[1]);
    assert("HGET"@[0] != "KEYS"@[0]);
    assert("HGET"@.len() != "HGETALL"@.len());
}

/// Every key that has a deadline holds a value.
pub open spec fn deadlines_on_live_keys(s: Keyspace) -> bool {
    forall|k: Seq<u8>| #[trigger] s.expires.contains_key(k) ==> s.data.contains_key(k)
}

proof fn lemma_expired_keeps(s: Keyspace, k: Seq<u8>, now: u64)
    requires
        deadlines_on_live_keys(s),
    ensures
        deadlines_on_live_keys(expired(s, k, now)),
        expired(s, k, now).cmds == s.cmds,
{
}

proof fn lemma_del_keys(s: Keyspace, a: Seq<Seq<u8>>, now: u64, n: nat)
    requires
        deadlines_on_live_keys(s),
    ensures
        deadlines_on_live_keys(del_keys(s, a, now, n).0),
        del_keys(s, a, now, n).0.cmds == s.cmds,
    decreases n,
{
    if n > 0 {
        lemma_del_keys(s, a, now, (n - 1) as nat);
        let s1 = del_keys(s, a, now, (n - 1) as nat).0;
        lemma_expired_keeps(s1, a[n as int], now);
    }
}

proof fn lemma_exists_keys(s: Keyspace, a: Seq<Seq<u8>>, now: u64, n: nat)
    requires
        deadlines_on_live_keys(s),
    ensures
        deadlines_on_live_keys(exists_keys(s, a, now, n).0),
        exists_keys(s, a, now, n).0.cmds == s.cmds,
    decreases n,
{
    if n > 0 {
        lemma_exists_keys(s, a, now, (n - 1) as nat);
        let s1 = exists_keys(s, a, now, (n - 1) as nat).0;
        lemma_expired_keeps(s1, a[n as int], now);
    }
}

proof fn lemma_set_options_keys(e: Map<Seq<u8>, u64>, a: Seq<Seq<u8>>, now: u64, p: nat, k: Seq<u8>)
    requires
        set_options(e, a, now, p) is Some,
        set_options(e, a, now, p).unwrap().contains_key(k),
    ensures
        e.contains_key(k) || k == a[1],
    decreases p,
{
    if p > 0 {
        let prev = set_options(e, a, now, (p - 1) as nat);
        if prev.unwrap().contains_key(k) {
            lemma_set_options_keys(e, a, now, (p - 1) as nat, k);
        }
    }
}

/// The keyspace and reply that a successful `run` leaves.
spec fn after(o: Option<(Keyspace, Reply)>) -> Keyspace {
    o.unwrap().0
}

/// Every key that holds a value in `s` still does in `s2`, or has no deadline there.
spec fn keeps(s2: Keyspace, s: Keyspace) -> bool {
    deadlines_on_live_keys(s2) && s2.cmds == s.cmds
}

proof fn lemma_set_keeps(s: Keyspace, a: Seq<Seq<u8>>, now: u64)
    requires
        deadlines_on_live_keys(s),
        set_cmd(s, a, now) is Some,
    ensures
        keeps(after(set_cmd(s, a, now)), s),
{
    if a.len() >= 3 {
        let e0 = s.expires.remove(a[1]);
        let p = crate::semantics::option_pairs(a.len() as int);
        let s2 = after(set_cmd(s, a, now));
        assert forall|k: Seq<u8>| #[trigger] s2.expires.contains_key(k) implies s2.data.contains_key(k) by {
            lemma_set_options_keys(e0, a, now, p, k);
        }
    }
}

/// Whatever a command does, every key that has a deadline still holds a value afterwards, and
/// the command is counted once.
pub proof fn law_deadlines_stay_on_live_keys(s: Keyspace, name: Seq<char>, a: Seq<Seq<u8>>, now: u64, s2: Keyspace, r: Reply)
    requires
        deadlines_on_live_keys(s),
        completes(s, name, a, now),
        outcome(s, name, a, now, s2, r),
    ensures
        deadlines_on_live_keys(s2),
        s2.cmds == s.cmds + 1,
{
    let s1 = bump(s);
    let o = run(s1, name, a, now);
    if a.len() >= 2 {
        lemma_expired_keeps(s1, a[1], now);
    }
    if name == "KEYS"@ || name == "HGETALL"@ {
    } else if name == "PING"@ || name == "ECHO"@ {
    } else if name == "SET"@ {
        assert(o == set_cmd(s1, a, now));
        lemma_set_keeps(s1, a, now);
    } else if name == "GET"@ {
        assert(o == get_cmd(s1, a, now));
    } else if name == "DEL"@ {
        assert(o == del_cmd(s1, a, now));
        lemma_del_keys(s1, a, now, (a.len() - 1) as nat);
    } else if name == "EXISTS"@ {
        assert(o == exists_cmd(s1, a, now));
        lemma_exists_keys(s1, a, now, (a.len() - 1) as nat);
    } else if name == "INCR"@ {
        assert(o == incr_cmd(s1, a, now, 1));
    } else if name == "DECR"@ {
        assert(o == incr_cmd(s1, a, now, -1));
    } else if name == "INCRBY"@ {
        assert(o == incrby_cmd(s1, a, now, false));
    } else if name == "DECRBY"@ {
        assert(o == incrby_cmd(s1, a, now, true));
    } else if name == "APPEND"@ {
        assert(o == append_cmd(s1, a, now));
    } else if name == "STRLEN"@ {
        assert(o == strlen_cmd(s1, a, now));
    } else if name == "TYPE"@ {
        assert(o == type_cmd(checked(s1, a, now, 2), a));
    } else if name == "EXPIRE"@ {
        assert(o == expire_cmd(s1, a, now));
    } else if name == "TTL"@ {
        assert(o == ttl_cmd(s1, a, now));
    } else if name == "PERSIST"@ {
        assert(o == persist_cmd(checked(s1, a, now, 2), a));
    } else if name == "DBSIZE"@ || name == "FLUSHALL"@ || name == "FLUSHDB"@ {
    } else if name == "LPUSH"@ {
        assert(o == push_cmd(s1, a, now, true));
    } else if name == "RPUSH"@ {
        assert(o == push_cmd(s1, a, now, false));
    } else if name == "LPOP"@ {
        assert(o == pop_cmd(s1, a, now, true));
    } else if name == "RPOP"@ {
        assert(o == pop_cmd(s1, a, now, false));
    } else if name == "LLEN"@ {
        lemma_expired_keeps(s1, llen_key(a), now);
        assert(o == llen_cmd(expired(s1, llen_key(a), now), a));
    } else if name == "LRANGE"@ {
        assert(o == lrange_cmd(checked(s1, a, now, 4), a));
    } else if name == "HSET"@ {
        assert(o == hset_cmd(checked(s1, a, now, 4), a));
    } else if name == "HGET"@ {
        assert(o == hget_cmd(checked(s1, a, now, 3), a));
    } else if name == "HDEL"@ {
        assert(o == hdel_cmd(checked(s1, a, now, 3), a));
    } else if name == "HLEN"@ {
        assert(o == hlen_cmd(checked(s1, a, now, 2), a));
    } else {
    }
}

/// A `GET` after a `SET` of the same key, with no command between them, answers the value that
/// was set, whenever it comes: a plain `SET` leaves the key without a deadline.
pub proof fn law_get_after_set(
    s: Keyspace, w0: Seq<u8>, w1: Seq<u8>, k: Seq<u8>, v: Seq<u8>,
    t1: u64, t2: u64, s2: Keyspace, r1: Reply, s3: Keyspace, r2: Reply,
)
    requires
        outcome(s, "SET"@, seq![w0, k, v], t1, s2, r1),
        outcome(s2, "GET"@, seq![w1, k], t2, s3, r2),
    ensures
        r1 == crate::semantics::ok_reply(),
        r2 == Reply::Bulk(v),
{
    let a = seq![w0, k, v];
    assert(crate::semantics::option_pairs(a.len() as int) == 0);
    lemma_runs_set(bump(s), a, t1);
    lemma_runs_get(bump(s2), seq![w1, k], t2);
}

/// An `EXISTS` after a `DEL` of the same key, with no command between them, counts nothing.
pub proof fn law_exists_after_del(
    s: Keyspace, w0: Seq<u8>, w1: Seq<u8>, k: Seq<u8>,
    t1: u64, t2: u64, s2: Keyspace, r1: Reply, s3: Keyspace, r2: Reply,
)
    requires
        outcome(s, "DEL"@, seq![w0, k], t1, s2, r1),
        outcome(s2, "EXISTS"@, seq![w1, k], t2, s3, r2),
    ensures
        !s2.data.contains_key(k),
        r2 == Reply::Int(0),
{
    let a = seq![w0, k];
    let b = seq![w1, k];
    let x1 = bump(s);
    let x2 = bump(s2);
    lemma_runs_del(x1, a, t1);
    assert(del_keys(x1, a, t1, 0) == (x1, 0int));
    lemma_runs_exists(x2, b, t2);
    assert(exists_keys(x2, b, t2, 0) == (x2, 0int));
}

/// A second `INCR` of a key at the same moment answers one more than the first.
pub proof fn law_incr_twice(
    s: Keyspace, w0: Seq<u8>, w1: Seq<u8>, k: Seq<u8>,
    t: u64, s2: Keyspace, r1: Reply, s3: Keyspace, r2: Reply,
)
    requires
        outcome(s, "INCR"@, seq![w0, k], t, s2, r1),
        outcome(s2, "INCR"@, seq![w1, k], t, s3, r2),
        r1 is Int,
    ensures
        r2 == Reply::Int(r1->Int_0 + 1),
{
    let a = seq![w0, k];
    let b = seq![w1, k];
    let x1 = bump(s);
    let x2 = bump(s2);
    lemma_runs_incr(x1, a, t);
    lemma_runs_incr(x2, b, t);
    let n = r1->Int_0;
    assert(i64::MIN <= n <= i64::MAX);
    lemma_i64_text_round_trip(n as i64);
    assert(expired(x2, k, t).data == x2.data);
}

/// The list a key holds, or the empty list when it holds none.
pub open spec fn list_at(s: Keyspace, k: Seq<u8>) -> Seq<Seq<u8>> {
    if s.data.contains_key(k) && s.data[k] is List { s.data[k]->List_0 } else { Seq::empty() }
}

/// A pop from the end a value was just pushed onto, at the same moment, answers that value
/// and leaves the list as it was before the push.
pub proof fn law_pop_undoes_push(
    s: Keyspace, left: bool, w0: Seq<u8>, w1: Seq<u8>, k: Seq<u8>, v: Seq<u8>,
    t: u64, s2: Keyspace, r1: Reply, s3: Keyspace, r2: Reply,
)
    requires
        outcome(s, if left { "LPUSH"@ } else { "RPUSH"@ }, seq![w0, k, v], t, s2, r1),
        outcome(s2, if left { "LPOP"@ } else { "RPOP"@ }, seq![w1, k], t, s3, r2),
        r1 is Int,
    ensures
        r2 == Reply::Bulk(v),
        s3.data == s2.data.insert(k, Item::List(list_at(expired(s, k, t), k))),
{
    let a = seq![w0, k, v];
    let b = seq![w1, k];
    let x1 = bump(s);
    let x2 = bump(s2);
    let e1 = expired(x1, k, t);
    let l0 = list_at(e1, k);
    assert(list_at(e1, k) == list_at(expired(s, k, t), k));
    assert(a.subrange(2, 3) =~= seq![v]);
    if left {
        lemma_runs_lpush(x1, a, t);
        lemma_runs_lpop(x2, b, t);
        assert(seq![v].reverse() =~= seq![v]);
        assert((seq![v] + l0).drop_first() =~= l0);
    } else {
        lemma_runs_rpush(x1, a, t);
        lemma_runs_rpop(x2, b, t);
        assert((l0 + seq![v]).drop_last() =~= l0);
    }
    assert(expired(x2, k, t) == x2);
}

/// An `HGET` of the field an `HSET` just wrote, at the same moment, answers the value written,
/// unless the key holds something other than a hash (then both answer the type error).
pub proof fn law_hget_after_hset(
    s: Keyspace, w0: Seq<u8>, w1: Seq<u8>, k: Seq<u8>, f: Seq<u8>, v: Seq<u8>,
    t: u64, s2: Keyspace, r1: Reply, s3: Keyspace, r2: Reply,
)
    requires
        outcome(s, "HSET"@, seq![w0, k, f, v], t, s2, r1),
        outcome(s2, "HGET"@, seq![w1, k, f], t, s3, r2),
    ensures
        r1 == crate::semantics::wrongtype_reply() || r2 == Reply::Bulk(v),
{
    let a = seq![w0, k, f, v];
    let b = seq![w1, k, f];
    let x1 = bump(s);
    let x2 = bump(s2);
    lemma_runs_hset(x1, a, t);
    lemma_runs_hget(x2, b, t);
    assert forall|h: Map<Seq<u8>, Seq<u8>>| #[trigger] hset_fields(h, a, 1).0 == h.insert(f, v) by {
        assert(hset_fields(h, a, 0) == (h, 0int));
    }
    assert(checked(x2, b, t, 3) == x2);
}

/// A `TTL` right after an `EXPIRE` that set a deadline of `n` seconds answers `n`; a deadline
/// of no time at all has already passed, so the key is gone.
pub proof fn law_ttl_after_expire(
    s: Keyspace, w0: Seq<u8>, w1: Seq<u8>, k: Seq<u8>, secs: Seq<u8>, n: i64,
    t: u64, s2: Keyspace, r1: Reply, s3: Keyspace, r2: Reply,
)
    requires
        i64_of_text(secs) == Some(n),
        outcome(s, "EXPIRE"@, seq![w0, k, secs], t, s2, r1),
        outcome(s2, "TTL"@, seq![w1, k], t, s3, r2),
        r1 == Reply::Int(1),
    ensures
        r2 == Reply::Int(if n > 0 { n as int } else { -2 }),
{
    let a = seq![w0, k, secs];
    let b = seq![w1, k];
    let x1 = bump(s);
    let x2 = bump(s2);
    lemma_runs_expire(x1, a, t);
    lemma_runs_ttl(x2, b, t);
    let d = crate::semantics::clamp0(n as int) * 1000;
    assert(s2.expires[k] == t + d);
}

/// Once the deadline an `EXPIRE` set has come, a `GET` of the key finds nothing.
pub proof fn law_get_after_deadline(
    s: Keyspace, w0: Seq<u8>, w1: Seq<u8>, k: Seq<u8>, secs: Seq<u8>, n: i64,
    t1: u64, t2: u64, s2: Keyspace, r1: Reply, s3: Keyspace, r2: Reply,
)
    requires
        i64_of_text(secs) == Some(n),
        outcome(s, "EXPIRE"@, seq![w0, k, secs], t1, s2, r1),
        outcome(s2, "GET"@, seq![w1, k], t2, s3, r2),
        r1 == Reply::Int(1),
        t2 >= t1 + crate::semantics::clamp0(n as int) * 1000,
    ensures
        r2 == Reply::Null,
        !s3.data.contains_key(k),
{
    let a = seq![w0, k, secs];
    let b = seq![w1, k];
    let x1 = bump(s);
    let x2 = bump(s2);
    lemma_runs_expire(x1, a, t1);
    lemma_runs_get(x2, b, t2);
}

/// After `PERSIST` a key has no deadline: `TTL` answers -1 when the key was live at the
/// `PERSIST`, and -2 when it held nothing or its deadline had passed (then it is gone).
pub proof fn law_ttl_after_persist(
    s: Keyspace, w0: Seq<u8>, w1: Seq<u8>, k: Seq<u8>,
    t1: u64, t2: u64, s2: Keyspace, r1: Reply, s3: Keyspace, r2: Reply,
)
    requires
        outcome(s, "PERSIST"@, seq![w0, k], t1, s2, r1),
        outcome(s2, "TTL"@, seq![w1, k], t2, s3, r2),
    ensures
        r2 == Reply::Int(if is_live(s, k, t1) { -1 } else { -2 }),
{
    let a = seq![w0, k];
    let b = seq![w1, k];
    let x1 = bump(s);
    let x2 = bump(s2);
    lemma_runs_persist(x1, a, t1);
    lemma_runs_ttl(x2, b, t2);
    assert(expired(x2, k, t2) == x2);
}

/// After `FLUSHALL` the keyspace is empty: `DBSIZE` answers 0.
pub proof fn law_flushall_empties(
    s: Keyspace, w0: Seq<u8>, w1: Seq<u8>,
    t1: u64, t2: u64, s2: Keyspace, r1: Reply, s3: Keyspace, r2: Reply,
)
    requires
        outcome(s, "FLUSHALL"@, seq![w0], t1, s2, r1),
        outcome(s2, "DBSIZE"@, seq![w1], t2, s3, r2),
    ensures
        r1 == crate::semantics::ok_reply(),
        s2.data.len() == 0,
        r2 == Reply::Int(0),
{
    let x1 = bump(s);
    let x2 = bump(s2);
    lemma_runs_flushall(x1, seq![w0], t1);
    lemma_runs_dbsize(x2, seq![w1], t2);
    assert(s2.data.dom() =~= Set::<Seq<u8>>::empty());
}

proof fn lemma_star_from(k: Seq<u8>, j: int)
    requires
        0 <= j <= k.len(),
    ensures
        glob_from(seq![42u8], k, 0, j),
    decreases k.len() - j,
{
    let p = seq![42u8];
    assert(glob_from(p, k, 1, k.len() as int));
    if j < k.len() {
        lemma_star_from(k, j + 1);
    }
}

/// The pattern `*` matches every key.
pub proof fn law_star_matches_everything(k: Seq<u8>)
    ensures
        glob_matches(seq![42u8], k),
{
    lemma_star_from(k, 0);
}

/// `KEYS` with no pattern, or with `*`, lists every key whose deadline has not come, each once,
/// and leaves the keys as they are.
pub proof fn law_keys_star_lists_all(s: Keyspace, a: Seq<Seq<u8>>, t: u64, s2: Keyspace, r: Reply)
    requires
        a.len() == 1 || (a.len() >= 2 && a[1] == seq![42u8]),
        outcome(s, "KEYS"@, a, t, s2, r),
    ensures
        lists_keys(r, live_keys(s, t)),
        s2.data == s.data,
        s2.expires == s.expires,
{
    assert(keys_pattern(a) == seq![42u8]);
    assert(matching_keys(bump(s), t, seq![42u8]) =~= live_keys(s, t)) by {
        assert forall|k: Seq<u8>| s.data.dom().contains(k) implies #[trigger] glob_matches(seq![42u8], k) by {
            law_star_matches_everything(k);
        }
    }
}

proof fn lemma_replies_front(a: Seq<Reply>, n: nat)
    requires
        1 <= n <= a.len(),
    ensures
        replies_bytes(a, n) == reply_bytes(a[0]) + replies_bytes(a.drop_first(), (n - 1) as nat),
    decreases n,
{
    let d = a.drop_first();
    if n == 1 {
        assert(replies_bytes(a, 0) == Seq::<u8>::empty());
        assert(replies_bytes(d, 0) == Seq::<u8>::empty());
        assert(replies_bytes(a, 1) =~= reply_bytes(a[0]) + replies_bytes(d, 0));
    } else {
        lemma_replies_front(a, (n - 1) as nat);
        assert(d[n - 2] == a[n - 1]);
        assert(replies_bytes(d, (n - 1) as nat) == replies_bytes(d, (n - 2) as nat) + reply_bytes(d[n - 2]));
        assert(replies_bytes(a, n) =~= reply_bytes(a[0]) + replies_bytes(d, (n - 1) as nat));
    }
}

proof fn lemma_newline_at(buf: Seq<u8>, pos: int, q: int)
    requires
        0 <= pos <= q < buf.len(),
        buf[q] == 10u8,
        forall|i: int| pos <= i < q ==> buf[i] != 10u8,
    ensures
        newline_from(buf, pos) == Some(q),
    decreases q - pos,
{
    if pos < q {
        lemma_newline_at(buf, pos + 1, q);
    }
}

/// The digits of a non-negative number: none is a line feed or a carriage return.
proof fn lemma_digits_text(n: int)
    requires
        n >= 0,
    ensures
        decimal_text(n).len() >= 1,
        forall|i: int| 0 <= i < decimal_text(n).len() ==> 48 <= #[trigger] decimal_text(n)[i] <= 57,
{
    lemma_decimal_digits(n as nat);
    assert forall|i: int| 0 <= i < decimal_text(n).len() implies 48 <= #[trigger] decimal_text(n)[i] <= 57 by {
        assert(is_digit(decimal_digits(n as nat)[i]));
    }
}

/// A header line `tag`, the digits of `n`, CRLF at `pos` in `buf`: the line ends after the
/// digits and the next one starts past the line feed.
proof fn lemma_header_line(buf: Seq<u8>, pos: int, tag: u8, n: int)
    requires
        n >= 0,
        0 <= pos,
        pos + framed(tag, decimal_text(n)).len() <= buf.len(),
        buf.subrange(pos, pos + framed(tag, decimal_text(n)).len()) == framed(tag, decimal_text(n)),
        tag != 10u8,
    ensures
        line_at(buf, pos) == Some((seq![tag] + decimal_text(n), pos + framed(tag, decimal_text(n)).len())),
        buf[pos] == tag,
{
    let d = decimal_text(n);
    let h = framed(tag, d);
    let q = pos + d.len() + 2;
    lemma_digits_text(n);
    assert(h.len() == d.len() + 3);
    assert forall|i: int| pos <= i < q implies buf[i] != 10u8 by {
        assert(buf[i] == buf.subrange(pos, pos + h.len())[i - pos]);
        if i == pos {
        } else if i < q - 1 {
            assert(h[i - pos] == d[i - pos - 1]);
        } else {
            assert(h[i - pos] == 13u8);
        }
    }
    assert(buf[q] == buf.subrange(pos, pos + h.len())[q - pos]);
    assert(buf[pos] == buf.subrange(pos, pos + h.len())[0]);
    lemma_newline_at(buf, pos, q);
    assert(buf[q - 1] == buf.subrange(pos, pos + h.len())[q - 1 - pos]);
    assert(buf.subrange(pos, q - 1) =~= seq![tag] + d) by {
        assert forall|i: int| 0 <= i < q - 1 - pos implies #[trigger] buf.subrange(pos, q - 1)[i] == (seq![tag] + d)[i] by {
            assert(buf.subrange(pos, q - 1)[i] == buf.subrange(pos, pos + h.len())[i]);
        }
    }
}

proof fn lemma_bulk_items_read(buf: Seq<u8>, pos: int, items: Seq<Seq<u8>>)
    requires
        0 <= pos,
        forall|i: int| 0 <= i < items.len() ==> #[trigger] items[i].len() <= usize::MAX,
        pos + replies_bytes(bulks(items), items.len()).len() <= buf.len(),
        buf.subrange(pos, pos + replies_bytes(bulks(items), items.len()).len())
            == replies_bytes(bulks(items), items.len()),
    ensures
        bulk_items(buf, pos, items.len()) == Ok::<Option<(Seq<Seq<u8>>, int)>, Seq<char>>(
            Some((items, pos + replies_bytes(bulks(items), items.len()).len()))),
    decreases items.len(),
{
    let m = items.len();
    let x = replies_bytes(bulks(items), m);
    if m == 0 {
        assert(x == Seq::<u8>::empty());
        assert(items =~= Seq::<Seq<u8>>::empty());
    } else {
        let b0 = items[0];
        let rest = items.drop_first();
        let xr = replies_bytes(bulks(rest), rest.len());
        let hd = framed(36u8, decimal_text(b0.len() as int));
        let bb = reply_bytes(Reply::Bulk(b0));
        lemma_replies_front(bulks(items), m);
        assert(bulks(items).drop_first() =~= bulks(rest));
        assert(bulks(items)[0] == Reply::Bulk(b0));
        assert(x == bb + xr);
        assert(bb == hd + b0 + crlf());
        let next = pos + hd.len();
        let after_item = next + b0.len() + 2;
        assert(after_item == pos + bb.len());
        assert(buf.subrange(pos, pos + hd.len()) =~= hd) by {
            assert forall|i: int| 0 <= i < hd.len() implies #[trigger] buf.subrange(pos, pos + hd.len())[i] == hd[i] by {
                assert(buf.subrange(pos, pos + hd.len())[i] == buf.subrange(pos, pos + x.len())[i]);
                assert(x[i] == bb[i]);
            }
        }
        lemma_header_line(buf, pos, 36u8, b0.len() as int);
        assert((seq![36u8] + decimal_text(b0.len() as int)).drop_first() =~= decimal_text(b0.len() as int));
        lemma_usize_text_round_trip(b0.len() as usize);
        assert(buf.subrange(next, next + b0.len()) =~= b0) by {
            assert forall|i: int| 0 <= i < b0.len() implies #[trigger] buf.subrange(next, next + b0.len())[i] == b0[i] by {
                assert(buf.subrange(next, next + b0.len())[i] == buf.subrange(pos, pos + x.len())[hd.len() + i]);
                assert(x[hd.len() + i] == bb[hd.len() + i]);
            }
        }
        assert(buf.subrange(after_item, after_item + xr.len()) =~= xr) by {
            assert forall|i: int| 0 <= i < xr.len() implies #[trigger] buf.subrange(after_item, after_item + xr.len())[i] == xr[i] by {
                assert(buf.subrange(after_item, after_item + xr.len())[i] == buf.subrange(pos, pos + x.len())[bb.len() + i]);
                assert(x[bb.len() + i] == xr[i]);
            }
        }
        assert forall|i: int| 0 <= i < rest.len() implies #[trigger] rest[i].len() <= usize::MAX by {
            assert(rest[i] == items[i + 1]);
        }
        lemma_bulk_items_read(buf, after_item, rest);
        assert(seq![b0] + rest =~= items);
    }
}

/// Reading a command back from the bytes that encode it as a RESP array of bulk strings gives
/// the command, and uses exactly those bytes, whatever follows them.
pub proof fn law_command_round_trip(args: Seq<Seq<u8>>, rest: Seq<u8>)
    requires
        args.len() <= i64::MAX,
        forall|i: int| 0 <= i < args.len() ==> #[trigger] args[i].len() <= usize::MAX,
    ensures
        command_frame(reply_bytes(Reply::Array(bulks(args))) + rest)
            == Ok::<Option<(Seq<Seq<u8>>, int)>, Seq<char>>(
                Some((args, reply_bytes(Reply::Array(bulks(args))).len() as int))),
{
    let n = args.len();
    let items = bulks(args);
    let e = reply_bytes(Reply::Array(items));
    let hd = framed(42u8, decimal_text(n as int));
    let x = replies_bytes(items, items.len());
    let buf = e + rest;
    assert(items.len() == n);
    assert(e == hd + x);
    assert(buf.subrange(0, hd.len() as int) =~= hd) by {
        assert forall|i: int| 0 <= i < hd.len() implies #[trigger] buf.subrange(0, hd.len() as int)[i] == hd[i] by {
            assert(buf[i] == e[i]);
        }
    }
    lemma_header_line(buf, 0, 42u8, n as int);
    assert((seq![42u8] + decimal_text(n as int)).drop_first() =~= decimal_text(n as int));
    lemma_i64_text_round_trip(n as i64);
    assert(buf.subrange(hd.len() as int, (hd.len() + x.len()) as int) =~= x) by {
        assert forall|i: int| 0 <= i < x.len() implies #[trigger] buf.subrange(hd.len() as int, (hd.len() + x.len()) as int)[i] == x[i] by {
            assert(buf[hd.len() + i] == e[hd.len() + i]);
        }
    }
    lemma_bulk_items_read(buf, hd.len() as int, args);
}

/// An inline command, a line of words ended by CRLF, reads back as its words and uses the
/// line and its CRLF, whatever follows.
pub proof fn law_inline_round_trip(text: Seq<u8>, rest: Seq<u8>)
    requires
        text.len() == 0 || text[0] != 42u8,
        forall|i: int| 0 <= i < text.len() ==> #[trigger] text[i] != 10u8,
    ensures
        command_frame(text + crlf() + rest)
            == Ok::<Option<(Seq<Seq<u8>>, int)>, Seq<char>>(Some((words(text), (text.len() + 2) as int))),
{
    let buf = text + crlf() + rest;
    let q = (text.len() + 1) as int;
    assert(buf[q] == 10u8);
    assert(buf[q - 1] == 13u8);
    assert forall|i: int| 0 <= i < q implies buf[i] != 10u8 by {
        if i < text.len() {
            assert(buf[i] == text[i]);
        }
    }
    lemma_newline_at(buf, 0, q);
    assert(buf.subrange(0, text.len() as int) =~= text);
}

proof fn lemma_bulk_items_bounds(buf: Seq<u8>, pos: int, remaining: nat)
    requires
        0 <= pos <= buf.len(),
    ensures
        bulk_items(buf, pos, remaining) matches Ok(Some((_, e))) ==> pos <= e <= buf.len(),
    decreases remaining,
{
    if remaining > 0 && pos < buf.len() && buf[pos] == 36u8 {
        lemma_line_at_bounds(buf, pos);
        match line_at(buf, pos) {
            None => {},
            Some((head, next)) => {
                match usize_of_text(head.drop_first()) {
                    None => {},
                    Some(len) => {
                        if next + len + 2 <= buf.len() {
                            lemma_bulk_items_bounds(buf, next + len + 2, (remaining - 1) as nat);
                        }
                    },
                }
            },
        }
    }
}

proof fn lemma_line_at_bounds(buf: Seq<u8>, pos: int)
    requires
        0 <= pos,
    ensures
        line_at(buf, pos) matches Some((_, next)) ==> pos < next <= buf.len(),
{
    if let Some(nl) = newline_from(buf, pos) {
        lemma_newline_within(buf, pos);
    }
}

proof fn lemma_newline_within(buf: Seq<u8>, pos: int)
    requires
        0 <= pos,
    ensures
        newline_from(buf, pos) matches Some(nl) ==> pos <= nl < buf.len(),
    decreases buf.len() - pos,
{
    if pos < buf.len() && buf[pos] != 10u8 {
        lemma_newline_within(buf, pos + 1);
    }
}

/// A whole command read off a buffer uses at least one byte and no more than the buffer holds,
/// so a reader that drops the bytes used always moves on.
pub proof fn law_frame_progress(buf: Seq<u8>)
    ensures
        command_frame(buf) matches Ok(Some((_, used))) ==> 1 <= used <= buf.len(),
{
    lemma_line_at_bounds(buf, 0);
    if buf.len() > 0 && buf[0] == 42u8 {
        if let Some((head, next)) = line_at(buf, 0) {
            if let Some(count) = i64_of_text(head.drop_first()) {
                lemma_bulk_items_bounds(buf, next, if count < 0 { 0nat } else { count as nat });
            }
        }
    }
}

/// A `DECR` of a key right after an `INCR`, at the same moment, answers the number the key held
/// before the `INCR`.
pub proof fn law_decr_undoes_incr(
    s: Keyspace, w0: Seq<u8>, w1: Seq<u8>, k: Seq<u8>,
    t: u64, s2: Keyspace, r1: Reply, s3: Keyspace, r2: Reply,
)
    requires
        outcome(s, "INCR"@, seq![w0, k], t, s2, r1),
        outcome(s2, "DECR"@, seq![w1, k], t, s3, r2),
        r1 is Int,
    ensures
        r2 == Reply::Int(r1->Int_0 - 1),
{
    let a = seq![w0, k];
    let b = seq![w1, k];
    let x1 = bump(s);
    let x2 = bump(s2);
    lemma_runs_incr(x1, a, t);
    lemma_runs_decr(x2, b, t);
    let n = r1->Int_0;
    assert(i64::MIN <= n <= i64::MAX);
    lemma_i64_text_round_trip(n as i64);
    assert(expired(x2, k, t).data == x2.data);
}

/// True when `p` holds neither `*` nor `?`.
pub open spec fn no_wildcards(p: Seq<u8>) -> bool {
    forall|i: int| 0 <= i < p.len() ==> #[trigger] p[i] != 42u8 && p[i] != 63u8
}

proof fn lemma_literal_from(p: Seq<u8>, k: Seq<u8>, i: int)
    requires
        no_wildcards(p),
        0 <= i <= p.len(),
        i <= k.len(),
    ensures
        glob_from(p, k, i, i) <==> p.subrange(i, p.len() as int) == k.subrange(i, k.len() as int),
    decreases p.len() - i,
{
    let ps = p.subrange(i, p.len() as int);
    let ks = k.subrange(i, k.len() as int);
    if i == p.len() {
        assert(ps.len() == 0);
        if i < k.len() {
            assert(ks.len() > 0);
            assert(ps != ks);
        } else {
            assert(ps =~= ks);
        }
    } else if i == k.len() {
        assert(ps.len() > 0);
        assert(ks.len() == 0);
        assert(ps != ks);
        assert(!glob_from(p, k, i, i));
    } else {
        assert(p[i] != 42u8 && p[i] != 63u8);
        assert(glob_from(p, k, i, i) == (p[i] == k[i] && glob_from(p, k, i + 1, i + 1)));
        lemma_literal_from(p, k, i + 1);
        let pt = p.subrange(i + 1, p.len() as int);
        let kt = k.subrange(i + 1, k.len() as int);
        assert(pt =~= ps.drop_first());
        assert(kt =~= ks.drop_first());
        if ps == ks {
            assert(ps[0] == p[i] && ks[0] == k[i]);
        }
        if p[i] == k[i] && pt == kt {
            assert(ps =~= ks) by {
                assert forall|j: int| 0 <= j < ps.len() implies ps[j] == ks[j] by {
                    if j > 0 {
                        assert(ps[j] == pt[j - 1]);
                        assert(ks[j] == kt[j - 1]);
                    }
                }
            }
        }
    }
}

/// A pattern without `*` or `?` matches exactly the key that spells it.
pub proof fn law_literal_pattern(p: Seq<u8>, k: Seq<u8>)
    requires
        no_wildcards(p),
    ensures
        glob_matches(p, k) <==> p == k,
{
    if k.len() == 0 {
        if p.len() > 0 {
            assert(!glob_from(p, k, 0, 0));
        }
        assert(p.len() == 0 ==> p =~= k);
    } else {
        lemma_literal_from(p, k, 0);
        assert(p.subrange(0, p.len() as int) =~= p);
        assert(k.subrange(0, k.len() as int) =~= k);
    }
}

proof fn lemma_range_prefix(l: Seq<Seq<u8>>, h: int)
    requires
        -1 <= h < l.len(),
    ensures
        range_items(l, 0, h) == l.subrange(0, h + 1),
    decreases h + 1,
{
    if h >= 0 {
        lemma_range_prefix(l, h - 1);
        assert(l.subrange(0, h + 1) =~= l.subrange(0, h) + seq![l[h]]);
    } else {
        assert(l.subrange(0, 0) =~= Seq::<Seq<u8>>::empty());
    }
}

/// `LRANGE key 0 -1` on a live list answers the whole list, front first.
pub proof fn law_lrange_whole_list(
    s: Keyspace, w0: Seq<u8>, k: Seq<u8>, zero: Seq<u8>, minus_one: Seq<u8>,
    t: u64, s2: Keyspace, r: Reply,
)
    requires
        i64_of_text(zero) == Some(0i64),
        i64_of_text(minus_one) == Some(-1i64),
        is_live(s, k, t),
        s.data[k] is List,
        s.data[k]->List_0.len() <= i64::MAX,
        outcome(s, "LRANGE"@, seq![w0, k, zero, minus_one], t, s2, r),
    ensures
        r == Reply::Array(bulks(s.data[k]->List_0)),
{
    let a = seq![w0, k, zero, minus_one];
    let x1 = bump(s);
    let l = s.data[k]->List_0;
    lemma_runs_lrange(x1, a, t);
    assert(checked(x1, a, t, 4) == x1);
    assert((l.len() as i64) as int == l.len());
    lemma_range_prefix(l, l.len() - 1);
    assert(l.subrange(0, l.len() as int) =~= l);
}

proof fn lemma_del_keys_count(s: Keyspace, a: Seq<Seq<u8>>, now: u64, n: nat)
    ensures
        del_keys(s, a, now, n).0.cmds == s.cmds,
        exists_keys(s, a, now, n).0.cmds == s.cmds,
    decreases n,
{
    if n > 0 {
        lemma_del_keys_count(s, a, now, (n - 1) as nat);
    }
}

/// Every command that completes is counted once.
pub proof fn law_counts_each_command(s: Keyspace, name: Seq<char>, a: Seq<Seq<u8>>, now: u64, s2: Keyspace, r: Reply)
    requires
        completes(s, name, a, now),
        outcome(s, name, a, now, s2, r),
    ensures
        s2.cmds == s.cmds + 1,
{
    let s1 = bump(s);
    let o = run(s1, name, a, now);
    if name == "KEYS"@ || name == "HGETALL"@ {
    } else if name == "PING"@ || name == "ECHO"@ {
    } else if name == "SET"@ {
        assert(o == set_cmd(s1, a, now));
    } else if name == "GET"@ {
        assert(o == get_cmd(s1, a, now));
    } else if name == "DEL"@ {
        assert(o == del_cmd(s1, a, now));
        lemma_del_keys_count(s1, a, now, (a.len() - 1) as nat);
    } else if name == "EXISTS"@ {
        assert(o == exists_cmd(s1, a, now));
        lemma_del_keys_count(s1, a, now, (a.len() - 1) as nat);
    } else if name == "INCR"@ {
        assert(o == incr_cmd(s1, a, now, 1));
    } else if name == "DECR"@ {
        assert(o == incr_cmd(s1, a, now, -1));
    } else if name == "INCRBY"@ {
        assert(o == incrby_cmd(s1, a, now, false));
    } else if name == "DECRBY"@ {
        assert(o == incrby_cmd(s1, a, now, true));
    } else if name == "APPEND"@ {
        assert(o == append_cmd(s1, a, now));
    } else if name == "STRLEN"@ {
        assert(o == strlen_cmd(s1, a, now));
    } else if name == "TYPE"@ {
        assert(o == type_cmd(checked(s1, a, now, 2), a));
    } else if name == "EXPIRE"@ {
        assert(o == expire_cmd(s1, a, now));
    } else if name == "TTL"@ {
        assert(o == ttl_cmd(s1, a, now));
    } else if name == "PERSIST"@ {
        assert(o == persist_cmd(checked(s1, a, now, 2), a));
    } else if name == "DBSIZE"@ || name == "FLUSHALL"@ || name == "FLUSHDB"@ {
    } else if name == "LPUSH"@ {
        assert(o == push_cmd(s1, a, now, true));
    } else if name == "RPUSH"@ {
        assert(o == push_cmd(s1, a, now, false));
    } else if name == "LPOP"@ {
        assert(o == pop_cmd(s1, a, now, true));
    } else if name == "RPOP"@ {
        assert(o == pop_cmd(s1, a, now, false));
    } else if name == "LLEN"@ {
        assert(o == llen_cmd(expired(s1, llen_key(a), now), a));
    } else if name == "LRANGE"@ {
        assert(o == lrange_cmd(checked(s1, a, now, 4), a));
    } else if name == "HSET"@ {
        assert(o == hset_cmd(checked(s1, a, now, 4), a));
    } else if name == "HGET"@ {
        assert(o == hget_cmd(checked(s1, a, now, 3), a));
    } else if name == "HDEL"@ {
        assert(o == hdel_cmd(checked(s1, a, now, 3), a));
    } else if name == "HLEN"@ {
        assert(o == hlen_cmd(checked(s1, a, now, 2), a));
    } else {
    }
}

/// `b1` and `b2` hold the same first `m` bytes.
pub open spec fn same_prefix(b1: Seq<u8>, b2: Seq<u8>, m: int) -> bool {
    &&& 0 <= m <= b1.len()
    &&& m <= b2.len()
    &&& forall|i: int| 0 <= i < m ==> #[trigger] b1[i] == b2[i]
}

proof fn lemma_newline_same(b1: Seq<u8>, b2: Seq<u8>, pos: int, m: int)
    requires
        0 <= pos,
        same_prefix(b1, b2, m),
        newline_from(b1, pos) matches Some(q) && q < m,
    ensures
        newline_from(b2, pos) == newline_from(b1, pos),
    decreases b1.len() - pos,
{
    lemma_newline_within(b1, pos);
    assert(b1[pos] == b2[pos]);
    if b1[pos] != 10u8 {
        lemma_newline_same(b1, b2, pos + 1, m);
    }
}

proof fn lemma_line_same(b1: Seq<u8>, b2: Seq<u8>, pos: int, m: int)
    requires
        0 <= pos,
        same_prefix(b1, b2, m),
        line_at(b1, pos) matches Some((_, next)) && next <= m,
    ensures
        line_at(b2, pos) == line_at(b1, pos),
{
    lemma_newline_within(b1, pos);
    let q = newline_from(b1, pos)->0;
    lemma_newline_same(b1, b2, pos, m);
    let end = if q > pos && b1[q - 1] == 13u8 { q - 1 } else { q };
    if q > pos {
        assert(b1[q - 1] == b2[q - 1]);
    }
    assert(b1.subrange(pos, end) =~= b2.subrange(pos, end)) by {
        assert forall|i: int| 0 <= i < end - pos implies #[trigger] b1.subrange(pos, end)[i] == b2.subrange(pos, end)[i] by {
            assert(b1[pos + i] == b2[pos + i]);
        }
    }
}

proof fn lemma_bulk_items_same(b1: Seq<u8>, b2: Seq<u8>, pos: int, r: nat, m: int)
    requires
        0 <= pos,
        same_prefix(b1, b2, m),
        (bulk_items(b1, pos, r) matches Ok(Some((_, e))) && e <= m)
            || (bulk_items(b1, pos, r) is Err && m == b1.len()),
    ensures
        bulk_items(b2, pos, r) == bulk_items(b1, pos, r),
    decreases r,
{
    if r > 0 {
        if pos < b1.len() && b1[pos] == 36u8 {
            lemma_line_at_bounds(b1, pos);
            if let Some((head, next)) = line_at(b1, pos) {
                if let Some(len) = usize_of_text(head.drop_first()) {
                    if next + len + 2 <= b1.len() {
                        let rest = bulk_items(b1, next + len + 2, (r - 1) as nat);
                        lemma_bulk_items_bounds(b1, next + len + 2, (r - 1) as nat);
                        lemma_bulk_items_same(b1, b2, next + len + 2, (r - 1) as nat, m);
                        lemma_line_same(b1, b2, pos, m);
                        assert(b1[pos] == b2[pos]);
                        assert(b1.subrange(next, next + len) =~= b2.subrange(next, next + len)) by {
                            assert forall|i: int| 0 <= i < len implies #[trigger] b1.subrange(next, next + len)[i] == b2.subrange(next, next + len)[i] by {
                                assert(b1[next + i] == b2[next + i]);
                            }
                        }
                    }
                } else {
                    lemma_line_same(b1, b2, pos, m);
                    assert(b1[pos] == b2[pos]);
                }
            }
        } else if pos < b1.len() {
            assert(b1[pos] == b2[pos]);
        }
    }
}

proof fn lemma_frame_same(b1: Seq<u8>, b2: Seq<u8>, m: int)
    requires
        same_prefix(b1, b2, m),
        (command_frame(b1) matches Ok(Some((_, e))) && e <= m)
            || (command_frame(b1) is Err && m == b1.len()),
    ensures
        command_frame(b2) == command_frame(b1),
{
    law_frame_progress(b1);
    lemma_line_at_bounds(b1, 0);
    assert(b1[0] == b2[0]);
    if let Some((head, next)) = line_at(b1, 0) {
        if b1[0] == 42u8 {
            if let Some(count) = i64_of_text(head.drop_first()) {
                let c: nat = if count < 0 { 0nat } else { count as nat };
                lemma_bulk_items_bounds(b1, next, c);
                lemma_line_same(b1, b2, 0, m);
                lemma_bulk_items_same(b1, b2, next, c, m);
            } else {
                lemma_line_same(b1, b2, 0, m);
            }
        } else {
            lemma_line_same(b1, b2, 0, m);
        }
    }
}

/// A command read off a buffer is decided by the bytes it uses alone: those bytes by themselves
/// read as the same command, and so do they with anything after them.
pub proof fn law_frame_decided_by_used(buf: Seq<u8>, extra: Seq<u8>)
    ensures
        command_frame(buf) matches Ok(Some((args, used))) ==> {
            &&& command_frame(buf.subrange(0, used)) == command_frame(buf)
            &&& command_frame(buf + extra) == command_frame(buf)
        },
{
    law_frame_progress(buf);
    if let Ok(Some((args, used))) = command_frame(buf) {
        let short = buf.subrange(0, used);
        assert(same_prefix(buf, short, used));
        lemma_frame_same(buf, short, used);
        let long = buf + extra;
        assert(same_prefix(buf, long, used));
        lemma_frame_same(buf, long, used);
    }
}

/// A malformed frame stays malformed whatever bytes come after it: an error never stands for
/// bytes that have not come yet.
pub proof fn law_error_stays_error(buf: Seq<u8>, extra: Seq<u8>)
    ensures
        command_frame(buf) is Err ==> command_frame(buf + extra) == command_frame(buf),
{
    if command_frame(buf) is Err {
        let long = buf + extra;
        assert(same_prefix(buf, long, buf.len() as int));
        lemma_frame_same(buf, long, buf.len() as int);
    }
}

proof fn lemma_newline_cut(b: Seq<u8>, pos: int, k: int)
    requires
        0 <= pos <= k <= b.len(),
        newline_from(b, pos) matches Some(q) && k <= q,
    ensures
        newline_from(b.subrange(0, k), pos) is None,
    decreases k - pos,
{
    if pos < k {
        assert(b.subrange(0, k)[pos] == b[pos]);
        lemma_newline_cut(b, pos + 1, k);
    }
}

proof fn lemma_bulk_items_cut(b: Seq<u8>, pos: int, r: nat, k: int)
    requires
        0 <= pos <= k <= b.len(),
        bulk_items(b, pos, r) matches Ok(Some((_, e))) && k < e,
    ensures
        bulk_items(b.subrange(0, k), pos, r) == Ok::<Option<(Seq<Seq<u8>>, int)>, Seq<char>>(None),
    decreases r,
{
    let p = b.subrange(0, k);
    if pos < k {
        assert(p[pos] == b[pos]);
        lemma_newline_within(b, pos);
        let q = newline_from(b, pos)->0;
        if k <= q {
            lemma_newline_cut(b, pos, k);
        } else {
            assert(same_prefix(b, p, k));
            lemma_line_at_bounds(b, pos);
            let (head, next) = line_at(b, pos)->0;
            let len = usize_of_text(head.drop_first())->0;
            lemma_bulk_items_bounds(b, next + len + 2, (r - 1) as nat);
            lemma_line_same(b, p, pos, k);
            if next + len + 2 <= k {
                lemma_bulk_items_cut(b, next + len + 2, (r - 1) as nat, k);
            }
        }
    }
}

/// Any part of a whole frame cut short before its end reads as "more bytes needed": however a
/// command arrives in pieces, no piece of it is taken for a command or an error.
pub proof fn law_prefix_waits(c: Seq<u8>, k: int)
    requires
        command_frame(c) matches Ok(Some((_, used))) && used == c.len(),
        0 <= k < c.len(),
    ensures
        command_frame(c.subrange(0, k)) == Ok::<Option<(Seq<Seq<u8>>, int)>, Seq<char>>(None),
{
    let p = c.subrange(0, k);
    if k > 0 {
        assert(p[0] == c[0]);
        lemma_newline_within(c, 0);
        let q = newline_from(c, 0)->0;
        if k <= q {
            lemma_newline_cut(c, 0, k);
        } else {
            assert(same_prefix(c, p, k));
            lemma_line_at_bounds(c, 0);
            let (head, next) = line_at(c, 0)->0;
            lemma_line_same(c, p, 0, k);
            let count = i64_of_text(head.drop_first())->0;
            let n: nat = if count < 0 { 0nat } else { count as nat };
            lemma_bulk_items_cut(c, next, n, k);
        }
    }
}

/// The distinct keys among `a[1]` to `a[n]` that are live in `s` at `now`.
pub open spec fn live_named(s: Keyspace, a: Seq<Seq<u8>>, now: u64, n: int) -> Set<Seq<u8>> {
    Set::new(|k: Seq<u8>| exists|i: int| 1 <= i <= n && #[trigger] a[i] == k && is_live(s, k, now))
}

/// True when `k` is none of `a[1]` to `a[n]`.
pub open spec fn unnamed(a: Seq<Seq<u8>>, n: int, k: Seq<u8>) -> bool {
    forall|i: int| 1 <= i <= n ==> #[trigger] a[i] != k
}

proof fn lemma_del_keys_effect(s: Keyspace, a: Seq<Seq<u8>>, now: u64, n: nat)
    requires
        n < a.len(),
    ensures
        forall|i: int| 1 <= i <= n ==> !(#[trigger] del_keys(s, a, now, n).0.data.contains_key(a[i])),
        forall|k: Seq<u8>| unnamed(a, n as int, k) ==> {
            &&& #[trigger] del_keys(s, a, now, n).0.data.contains_key(k) == s.data.contains_key(k)
            &&& del_keys(s, a, now, n).0.data[k] == s.data[k]
            &&& del_keys(s, a, now, n).0.expires.contains_key(k) == s.expires.contains_key(k)
            &&& del_keys(s, a, now, n).0.expires[k] == s.expires[k]
        },
        live_named(s, a, now, n as int).finite(),
        del_keys(s, a, now, n).1 == live_named(s, a, now, n as int).len(),
        del_keys(s, a, now, n).1 <= n,
    decreases n,
{
    let (sn, c) = del_keys(s, a, now, n);
    if n == 0 {
        assert(live_named(s, a, now, 0) =~= Set::<Seq<u8>>::empty());
    } else {
        let m = (n - 1) as nat;
        lemma_del_keys_effect(s, a, now, m);
        let (sm, cm) = del_keys(s, a, now, m);
        let k = a[n as int];
        let s2 = expired(sm, k, now);
        let before = live_named(s, a, now, m as int);
        let after = live_named(s, a, now, n as int);
        if unnamed(a, m as int, k) {
            assert(del_keys(s, a, now, m).0.data.contains_key(k) == s.data.contains_key(k));
            assert(sm.expires.contains_key(k) == s.expires.contains_key(k));
            assert(sm.expires[k] == s.expires[k]);
            assert(s2.data.contains_key(k) == is_live(s, k, now));
            if is_live(s, k, now) {
                assert(after =~= before.insert(k)) by {
                    assert(a[n as int] == k);
                }
                assert(!before.contains(k)) by {
                    if before.contains(k) {
                        let i = choose|i: int| 1 <= i <= m && #[trigger] a[i] == k && is_live(s, k, now);
                        assert(a[i] != k);
                    }
                }
            } else {
                assert(after =~= before);
            }
        } else {
            let j = choose|j: int| 1 <= j <= m && #[trigger] a[j] == k;
            assert(!sm.data.contains_key(a[j]));
            assert(!s2.data.contains_key(k));
            assert(after =~= before) by {
                if is_live(s, k, now) {
                    assert(before.contains(k)) by {
                        assert(1 <= j <= m && a[j] == k && is_live(s, k, now));
                    }
                }
            }
        }
        assert forall|i: int| 1 <= i <= n implies !(#[trigger] sn.data.contains_key(a[i])) by {
            if i < n {
                assert(!sm.data.contains_key(a[i]));
            }
        }
        assert forall|k2: Seq<u8>| unnamed(a, n as int, k2) implies {
            &&& #[trigger] sn.data.contains_key(k2) == s.data.contains_key(k2)
            &&& sn.data[k2] == s.data[k2]
            &&& sn.expires.contains_key(k2) == s.expires.contains_key(k2)
            &&& sn.expires[k2] == s.expires[k2]
        } by {
            assert(a[n as int] != k2);
            assert(unnamed(a, m as int, k2));
        }
    }
}

/// `DEL` removes every key it names, and answers how many distinct named keys were live before
/// it; every key it does not name keeps its value and its deadline.
pub proof fn law_del_removes_named_keys(s: Keyspace, a: Seq<Seq<u8>>, now: u64, s2: Keyspace, r: Reply)
    requires
        1 <= a.len() <= i64::MAX,
        outcome(s, "DEL"@, a, now, s2, r),
    ensures
        forall|i: int| 1 <= i < a.len() ==> !(#[trigger] s2.data.contains_key(a[i])),
        r == Reply::Int(live_named(s, a, now, a.len() - 1).len() as int),
        forall|k: Seq<u8>| unnamed(a, a.len() - 1, k) ==> {
            &&& #[trigger] s2.data.contains_key(k) == s.data.contains_key(k)
            &&& s2.data[k] == s.data[k]
            &&& s2.expires.contains_key(k) == s.expires.contains_key(k)
            &&& s2.expires[k] == s.expires[k]
        },
{
    let x = bump(s);
    let n = (a.len() - 1) as nat;
    lemma_runs_del(x, a, now);
    lemma_del_keys_effect(x, a, now, n);
    assert(live_named(x, a, now, n as int) =~= live_named(s, a, now, n as int));
}

/// The positions among 1 to `n` whose key in `a` is live in `s` at `now`.
pub open spec fn live_positions(s: Keyspace, a: Seq<Seq<u8>>, now: u64, n: int) -> Set<int> {
    Set::new(|i: int| 1 <= i <= n && is_live(s, a[i], now))
}

proof fn lemma_exists_keys_effect(s: Keyspace, a: Seq<Seq<u8>>, now: u64, n: nat)
    requires
        n < a.len(),
    ensures
        forall|k: Seq<u8>| #[trigger] is_live(exists_keys(s, a, now, n).0, k, now) == is_live(s, k, now),
        live_positions(s, a, now, n as int).finite(),
        exists_keys(s, a, now, n).1 == live_positions(s, a, now, n as int).len(),
        exists_keys(s, a, now, n).1 <= n,
    decreases n,
{
    if n == 0 {
        assert(live_positions(s, a, now, 0) =~= Set::<int>::empty());
    } else {
        let m = (n - 1) as nat;
        lemma_exists_keys_effect(s, a, now, m);
        let (sm, cm) = exists_keys(s, a, now, m);
        let k = a[n as int];
        let s2 = expired(sm, k, now);
        assert(is_live(sm, k, now) == is_live(s, k, now));
        assert(s2.data.contains_key(k) == is_live(s, k, now));
        let before = live_positions(s, a, now, m as int);
        if is_live(s, k, now) {
            assert(live_positions(s, a, now, n as int) =~= before.insert(n as int));
        } else {
            assert(live_positions(s, a, now, n as int) =~= before);
        }
        assert forall|k2: Seq<u8>| #[trigger] is_live(s2, k2, now) == is_live(s, k2, now) by {
            assert(is_live(sm, k2, now) == is_live(s, k2, now));
        }
    }
}

/// `EXISTS` answers how many of the keys it names are live, a key named twice counted twice,
/// and changes no key that is live.
pub proof fn law_exists_counts_live_keys(s: Keyspace, a: Seq<Seq<u8>>, now: u64, s2: Keyspace, r: Reply)
    requires
        1 <= a.len() <= i64::MAX,
        outcome(s, "EXISTS"@, a, now, s2, r),
    ensures
        r == Reply::Int(live_positions(s, a, now, a.len() - 1).len() as int),
        forall|k: Seq<u8>| #[trigger] is_live(s2, k, now) == is_live(s, k, now),
{
    let x = bump(s);
    let n = (a.len() - 1) as nat;
    lemma_runs_exists(x, a, now);
    lemma_exists_keys_effect(x, a, now, n);
    assert(live_positions(x, a, now, n as int) =~= live_positions(s, a, now, n as int));
    assert forall|k: Seq<u8>| #[trigger] is_live(s2, k, now) == is_live(s, k, now) by {
        assert(is_live(exists_keys(x, a, now, n).0, k, now) == is_live(x, k, now));
    }
}

proof fn lemma_range_slice(l: Seq<Seq<u8>>, lo: int, hi: int)
    requires
        0 <= lo,
        lo - 1 <= hi < l.len(),
    ensures
        range_items(l, lo, hi) == l.subrange(lo, hi + 1),
    decreases hi - lo + 1,
{
    if hi >= lo {
        lemma_range_slice(l, lo, hi - 1);
        assert(l.subrange(lo, hi + 1) =~= l.subrange(lo, hi) + seq![l[hi]]);
    } else {
        assert(l.subrange(lo, lo) =~= Seq::<Seq<u8>>::empty());
    }
}

/// The items `LRANGE` answers for `start` and `stop` on a list of `len` items: positions
/// counted from the end when negative, then kept within the list.
pub open spec fn slice_of(l: Seq<Seq<u8>>, start: int, stop: int) -> Seq<Seq<u8>> {
    let len = l.len() as int;
    let first = if start < 0 { start + len } else { start };
    let last = if stop < 0 { stop + len } else { stop };
    let lo = if first < 0 { 0 } else { first };
    let hi = if last > len - 1 { len - 1 } else { last };
    if lo <= hi { l.subrange(lo, hi + 1) } else { Seq::empty() }
}

/// `LRANGE key start stop` on a live list answers its items from position `start` to position
/// `stop`, both included, where a negative position counts from the end (-1 is the last item)
/// and the range is cut to the list.
pub proof fn law_lrange_slice(
    s: Keyspace, w0: Seq<u8>, k: Seq<u8>, start_text: Seq<u8>, stop_text: Seq<u8>, start: i64, stop: i64,
    t: u64, s2: Keyspace, r: Reply,
)
    requires
        i64_of_text(start_text) == Some(start),
        i64_of_text(stop_text) == Some(stop),
        is_live(s, k, t),
        s.data[k] is List,
        s.data[k]->List_0.len() <= i64::MAX,
        outcome(s, "LRANGE"@, seq![w0, k, start_text, stop_text], t, s2, r),
    ensures
        r == Reply::Array(bulks(slice_of(s.data[k]->List_0, start as int, stop as int))),
{
    let a = seq![w0, k, start_text, stop_text];
    let x1 = bump(s);
    let l = s.data[k]->List_0;
    lemma_runs_lrange(x1, a, t);
    assert(checked(x1, a, t, 4) == x1);
    let len = l.len() as int;
    assert((l.len() as i64) as int == len);
    let first = if start < 0 { start + len } else { start as int };
    let last = if stop < 0 { stop + len } else { stop as int };
    let lo = if first < 0 { 0 } else { first };
    let hi = if last > len - 1 { len - 1 } else { last };
    if lo <= hi {
        lemma_range_slice(l, lo, hi);
    } else {
        assert(range_items(l, lo, hi) == Seq::<Seq<u8>>::empty());
    }
}

/// `LRANGE key 0 -(m + 1)` on a live list answers the list without its last `m` items.
pub proof fn law_lrange_drops_last(
    s: Keyspace, w0: Seq<u8>, k: Seq<u8>, zero: Seq<u8>, stop_text: Seq<u8>, m: i64,
    t: u64, s2: Keyspace, r: Reply,
)
    requires
        i64_of_text(zero) == Some(0i64),
        0 <= m < s.data[k]->List_0.len(),
        i64_of_text(stop_text) == Some((-(m as int) - 1) as i64),
        is_live(s, k, t),
        s.data[k] is List,
        s.data[k]->List_0.len() <= i64::MAX,
        outcome(s, "LRANGE"@, seq![w0, k, zero, stop_text], t, s2, r),
    ensures
        r == Reply::Array(bulks(s.data[k]->List_0.subrange(0, s.data[k]->List_0.len() - m))),
{
    law_lrange_slice(s, w0, k, zero, stop_text, 0, (-(m as int) - 1) as i64, t, s2, r);
}

/// True when `p` holds no `*`.
pub open spec fn no_star(p: Seq<u8>) -> bool {
    forall|i: int| 0 <= i < p.len() ==> #[trigger] p[i] != 42u8
}

/// True when `k` has the length of `p` and each byte of `p` is `?` or the byte of `k` in its
/// place.
pub open spec fn fits_pattern(p: Seq<u8>, k: Seq<u8>) -> bool {
    p.len() == k.len() && forall|i: int| 0 <= i < p.len() ==> #[trigger] p[i] == 63u8 || p[i] == k[i]
}

proof fn lemma_star_free_from(p: Seq<u8>, k: Seq<u8>, i: int, j: int)
    requires
        no_star(p),
        0 <= i <= p.len(),
        0 <= j <= k.len(),
    ensures
        glob_from(p, k, i, j) <==> (p.len() - i == k.len() - j
            && forall|x: int| 0 <= x < p.len() - i ==> #[trigger] p[i + x] == 63u8 || p[i + x] == k[j + x]),
    decreases p.len() - i,
{
    if i == p.len() {
    } else if j == k.len() {
        assert(p[i] != 42u8);
    } else {
        assert(p[i] != 42u8);
        lemma_star_free_from(p, k, i + 1, j + 1);
        if p.len() - i == k.len() - j
            && forall|x: int| 0 <= x < p.len() - i ==> #[trigger] p[i + x] == 63u8 || p[i + x] == k[j + x] {
            assert(p[i + 0] == 63u8 || p[i + 0] == k[j + 0]);
            assert forall|x: int| 0 <= x < p.len() - (i + 1) implies #[trigger] p[i + 1 + x] == 63u8 || p[i + 1 + x] == k[j + 1 + x] by {
                assert(p[i + (x + 1)] == 63u8 || p[i + (x + 1)] == k[j + (x + 1)]);
            }
        }
        if glob_from(p, k, i, j) {
            assert forall|x: int| 0 <= x < p.len() - i implies #[trigger] p[i + x] == 63u8 || p[i + x] == k[j + x] by {
                if x > 0 {
                    assert(p[i + 1 + (x - 1)] == 63u8 || p[i + 1 + (x - 1)] == k[j + 1 + (x - 1)]);
                }
            }
        }
    }
}

/// A pattern without `*` matches exactly the keys of its own length whose every byte equals the
/// pattern's byte in that place or stands under a `?`: each `?` takes exactly one byte.
pub proof fn law_pattern_without_star(p: Seq<u8>, k: Seq<u8>)
    requires
        no_star(p),
    ensures
        glob_matches(p, k) <==> fits_pattern(p, k),
{
    lemma_star_free_from(p, k, 0, 0);
    if fits_pattern(p, k) {
        assert forall|x: int| 0 <= x < p.len() - 0 implies #[trigger] p[0 + x] == 63u8 || p[0 + x] == k[0 + x] by {
            assert(p[x] == 63u8 || p[x] == k[x]);
        }
    }
    if glob_matches(p, k) {
        assert forall|x: int| 0 <= x < p.len() implies #[trigger] p[x] == 63u8 || p[x] == k[x] by {
            assert(p[0 + x] == 63u8 || p[0 + x] == k[0 + x]);
        }
    }
}

/// `KEYS pattern`, for a pattern without `*`, lists each live key that fits the pattern once,
/// and nothing else.
pub proof fn law_keys_without_star(s: Keyspace, w0: Seq<u8>, p: Seq<u8>, t: u64, s2: Keyspace, r: Reply)
    requires
        no_star(p),
        outcome(s, "KEYS"@, seq![w0, p], t, s2, r),
    ensures
        lists_keys(r, s.data.dom().filter(|k: Seq<u8>| is_live(s, k, t) && fits_pattern(p, k))),
{
    let a = seq![w0, p];
    assert(keys_pattern(a) == p);
    assert(matching_keys(bump(s), t, p) =~= s.data.dom().filter(|k: Seq<u8>| is_live(s, k, t) && fits_pattern(p, k))) by {
        assert forall|k: Seq<u8>| #[trigger] glob_matches(p, k) == fits_pattern(p, k) by {
            law_pattern_without_star(p, k);
        }
    }
}

/// `INCRBY key by` on a key holding the integer `c` (a live string that reads as `c`, or nothing
/// live, then `c` is 0) answers `c + by` and leaves the key holding its decimal text, whatever
/// the sign of `by`; `DECRBY` does the same with `c - by`.
pub proof fn law_incrby_adds(
    s: Keyspace, down: bool, w0: Seq<u8>, k: Seq<u8>, by_text: Seq<u8>, by: i64, b: Seq<u8>, c: i64,
    t: u64, s2: Keyspace, r: Reply,
)
    requires
        i64_of_text(by_text) == Some(by),
        (is_live(s, k, t) && s.data[k] == Item::Str(b) && i64_of_text(b) == Some(c))
            || (!is_live(s, k, t) && c == 0),
        outcome(s, if down { "DECRBY"@ } else { "INCRBY"@ }, seq![w0, k, by_text], t, s2, r),
    ensures
        r == Reply::Int(if down { c - by } else { c + by }),
        s2.data.contains_key(k),
        s2.data[k] == Item::Str(decimal_text(if down { c - by } else { c + by })),
{
    let a = seq![w0, k, by_text];
    let x = bump(s);
    if down {
        lemma_runs_decrby(x, a, t);
    } else {
        lemma_runs_incrby(x, a, t);
    }
    let e = expired(x, k, t);
    assert(e.data.contains_key(k) == is_live(s, k, t));
    if is_live(s, k, t) {
        assert(e.data[k] == Item::Str(b));
    }
}

/// `INCRBY key by` followed, at the same moment, by `INCRBY key -by` gives back the number the
/// key held.
pub proof fn law_incrby_undone(
    s: Keyspace, w0: Seq<u8>, w1: Seq<u8>, k: Seq<u8>, by_text: Seq<u8>, back_text: Seq<u8>, by: i64,
    t: u64, s2: Keyspace, r1: Reply, s3: Keyspace, r2: Reply,
)
    requires
        i64_of_text(by_text) == Some(by),
        i64_of_text(back_text) == Some((-(by as int)) as i64),
        by != i64::MIN,
        outcome(s, "INCRBY"@, seq![w0, k, by_text], t, s2, r1),
        outcome(s2, "INCRBY"@, seq![w1, k, back_text], t, s3, r2),
        r1 is Int,
    ensures
        r2 == Reply::Int(r1->Int_0 - by),
{
    let a = seq![w0, k, by_text];
    let b2 = seq![w1, k, back_text];
    let x1 = bump(s);
    let x2 = bump(s2);
    lemma_runs_incrby(x1, a, t);
    lemma_runs_incrby(x2, b2, t);
    let n = r1->Int_0;
    assert(i64::MIN <= n <= i64::MAX);
    lemma_i64_text_round_trip(n as i64);
    assert(expired(x2, k, t).data == x2.data);
}

/// `EXPIRE key secs` on a live key answers 1 and sets its deadline `secs` seconds from now (no
/// time at all for a negative `secs`), whatever deadline it had before; the value stays. On a key
/// that is not live it answers 0.
pub proof fn law_expire_sets_deadline(
    s: Keyspace, w0: Seq<u8>, k: Seq<u8>, secs_text: Seq<u8>, secs: i64,
    t: u64, s2: Keyspace, r: Reply,
)
    requires
        i64_of_text(secs_text) == Some(secs),
        outcome(s, "EXPIRE"@, seq![w0, k, secs_text], t, s2, r),
    ensures
        is_live(s, k, t) ==> {
            &&& r == Reply::Int(1)
            &&& s2.data.contains_key(k) && s2.data[k] == s.data[k]
            &&& s2.expires.contains_key(k)
            &&& s2.expires[k] == t + (if secs < 0 { 0 } else { secs as int }) * 1000
        },
        !is_live(s, k, t) ==> r == Reply::Int(0) && !s2.data.contains_key(k),
{
    let a = seq![w0, k, secs_text];
    let x = bump(s);
    lemma_runs_expire(x, a, t);
    let e = expired(x, k, t);
    assert(e.data.contains_key(k) == is_live(s, k, t));
    if is_live(s, k, t) {
        assert(e.data[k] == s.data[k]);
    }
}

/// The string a key holds for reading at `now`: its value when it is a live string, else empty.
pub open spec fn live_string(s: Keyspace, k: Seq<u8>, now: u64) -> Seq<u8> {
    if is_live(s, k, now) && s.data[k] is Str { s.data[k]->Str_0 } else { Seq::empty() }
}

/// After `expired`, a key holds a value exactly when it was live, and then the same value.
proof fn lemma_expired_live(s: Keyspace, k: Seq<u8>, now: u64)
    ensures
        expired(s, k, now).data.contains_key(k) == is_live(s, k, now),
        is_live(s, k, now) ==> expired(s, k, now).data[k] == s.data[k],
        expired(bump(s), k, now) == bump(expired(s, k, now)),
        forall|k2: Seq<u8>| #[trigger] is_live(bump(s), k2, now) == is_live(s, k2, now),
{
    assert(expired(bump(s), k, now) =~= bump(expired(s, k, now)));
}

/// `GET` answers the value of a live string, nothing for a key that is not live, and the type
/// error for a live key of another kind.
pub proof fn law_get_reads_live_value(s: Keyspace, w0: Seq<u8>, k: Seq<u8>, t: u64, s2: Keyspace, r: Reply)
    requires
        outcome(s, "GET"@, seq![w0, k], t, s2, r),
    ensures
        !is_live(s, k, t) ==> r == Reply::Null,
        is_live(s, k, t) && s.data[k] is Str ==> r == Reply::Bulk(s.data[k]->Str_0),
        is_live(s, k, t) && !(s.data[k] is Str) ==> r == crate::semantics::wrongtype_reply(),
{
    lemma_runs_get(bump(s), seq![w0, k], t);
    lemma_expired_live(s, k, t);
}

/// `APPEND key v` on a key that holds a live string, or nothing live, leaves it holding the old
/// string followed by `v`, and answers the new length.
pub proof fn law_append_extends(s: Keyspace, w0: Seq<u8>, k: Seq<u8>, v: Seq<u8>, t: u64, s2: Keyspace, r: Reply)
    requires
        is_live(s, k, t) ==> s.data[k] is Str,
        live_string(s, k, t).len() + v.len() <= i64::MAX,
        outcome(s, "APPEND"@, seq![w0, k, v], t, s2, r),
    ensures
        s2.data.contains_key(k),
        s2.data[k] == Item::Str(live_string(s, k, t) + v),
        r == Reply::Int((live_string(s, k, t).len() + v.len()) as int),
{
    lemma_runs_append(bump(s), seq![w0, k, v], t);
    lemma_expired_live(s, k, t);
    if !is_live(s, k, t) {
        assert(live_string(s, k, t) + v =~= v);
    }
}

/// `STRLEN` answers the length of a live string, and 0 for a key that is not live.
pub proof fn law_strlen_measures(s: Keyspace, w0: Seq<u8>, k: Seq<u8>, t: u64, s2: Keyspace, r: Reply)
    requires
        live_string(s, k, t).len() <= i64::MAX,
        outcome(s, "STRLEN"@, seq![w0, k], t, s2, r),
    ensures
        !is_live(s, k, t) ==> r == Reply::Int(0),
        is_live(s, k, t) && s.data[k] is Str ==> r == Reply::Int(live_string(s, k, t).len() as int),
{
    lemma_runs_strlen(bump(s), seq![w0, k], t);
    lemma_expired_live(s, k, t);
}

/// `TTL` answers -2 for a key that is not live, -1 for a live key without a deadline, and the
/// whole seconds left before the deadline otherwise.
pub proof fn law_ttl_reports(s: Keyspace, w0: Seq<u8>, k: Seq<u8>, t: u64, s2: Keyspace, r: Reply)
    requires
        outcome(s, "TTL"@, seq![w0, k], t, s2, r),
    ensures
        !is_live(s, k, t) ==> r == Reply::Int(-2),
        is_live(s, k, t) && !s.expires.contains_key(k) ==> r == Reply::Int(-1),
        is_live(s, k, t) && s.expires.contains_key(k) ==> t < s.expires[k] && r == Reply::Int((s.expires[k] - t) / 1000),
{
    lemma_runs_ttl(bump(s), seq![w0, k], t);
    lemma_expired_live(s, k, t);
}

/// `TYPE` names what a live key holds, and answers `none` for a key that is not live.
pub proof fn law_type_names_kind(s: Keyspace, w0: Seq<u8>, k: Seq<u8>, t: u64, s2: Keyspace, r: Reply)
    requires
        outcome(s, "TYPE"@, seq![w0, k], t, s2, r),
    ensures
        !is_live(s, k, t) ==> r == Reply::Simple("none"@),
        is_live(s, k, t) && s.data[k] is Str ==> r == Reply::Simple("string"@),
        is_live(s, k, t) && s.data[k] is List ==> r == Reply::Simple("list"@),
        is_live(s, k, t) && s.data[k] is Hash ==> r == Reply::Simple("hash"@),
{
    lemma_runs_type(bump(s), seq![w0, k], t);
    lemma_expired_live(s, k, t);
}

/// `LLEN` answers the length of a live list, and 0 for a key that is not live.
pub proof fn law_llen_measures(s: Keyspace, w0: Seq<u8>, k: Seq<u8>, t: u64, s2: Keyspace, r: Reply)
    requires
        is_live(s, k, t) && s.data[k] is List ==> s.data[k]->List_0.len() <= i64::MAX,
        outcome(s, "LLEN"@, seq![w0, k], t, s2, r),
    ensures
        !is_live(s, k, t) ==> r == Reply::Int(0),
        is_live(s, k, t) && s.data[k] is List ==> r == Reply::Int(s.data[k]->List_0.len() as int),
{
    lemma_runs_llen(bump(s), seq![w0, k], t);
    lemma_expired_live(s, k, t);
}

/// The list a key holds for pushing at `now`: its list when it is a live list, else empty.
pub open spec fn live_list(s: Keyspace, k: Seq<u8>, now: u64) -> Seq<Seq<u8>> {
    if is_live(s, k, now) && s.data[k] is List { s.data[k]->List_0 } else { Seq::empty() }
}

/// `RPUSH key v1 .. vn` puts the values at the back in the order given; `LPUSH` puts them at
/// the front, each before the one given before it, so `vn` ends first. Both answer the new
/// length.
pub proof fn law_push_places_values(
    s: Keyspace, left: bool, w0: Seq<u8>, k: Seq<u8>, vals: Seq<Seq<u8>>, t: u64, s2: Keyspace, r: Reply,
)
    requires
        vals.len() >= 1,
        is_live(s, k, t) ==> s.data[k] is List,
        live_list(s, k, t).len() + vals.len() <= i64::MAX,
        outcome(s, if left { "LPUSH"@ } else { "RPUSH"@ }, seq![w0, k] + vals, t, s2, r),
    ensures
        s2.data.contains_key(k),
        s2.data[k] is List,
        s2.data[k]->List_0.len() == live_list(s, k, t).len() + vals.len(),
        r == Reply::Int((live_list(s, k, t).len() + vals.len()) as int),
        !left ==> s2.data[k]->List_0 == live_list(s, k, t) + vals,
        left ==> forall|i: int| 0 <= i < vals.len() ==> #[trigger] s2.data[k]->List_0[i] == vals[vals.len() - 1 - i],
        left ==> s2.data[k]->List_0.subrange(vals.len() as int, s2.data[k]->List_0.len() as int) == live_list(s, k, t),
{
    let a = seq![w0, k] + vals;
    let x = bump(s);
    if left {
        lemma_runs_lpush(x, a, t);
    } else {
        lemma_runs_rpush(x, a, t);
    }
    lemma_expired_live(s, k, t);
    assert(a.subrange(2, a.len() as int) =~= vals);
    assert(a[1] == k);
    let l = live_list(s, k, t);
    if !is_live(s, k, t) {
        assert(l =~= Seq::<Seq<u8>>::empty());
    }
    if left {
        let nl = vals.reverse() + l;
        assert(nl.subrange(vals.len() as int, nl.len() as int) =~= l);
    }
}

/// A plain `SET key v` leaves the key holding `v` with no deadline, whatever it held before.
pub proof fn law_set_plain(s: Keyspace, w0: Seq<u8>, k: Seq<u8>, v: Seq<u8>, t: u64, s2: Keyspace, r: Reply)
    requires
        outcome(s, "SET"@, seq![w0, k, v], t, s2, r),
    ensures
        r == ok_reply(),
        s2.data.contains_key(k) && s2.data[k] == Item::Str(v),
        !s2.expires.contains_key(k),
{
    let a = seq![w0, k, v];
    lemma_runs_set(bump(s), a, t);
    assert(crate::semantics::option_pairs(a.len() as int) == 0);
}

/// `SET key v EX n` (or `PX n`) leaves the key holding `v` with its deadline `n` seconds (or
/// milliseconds) from now, no time at all for a negative `n`.
pub proof fn law_set_with_deadline(
    s: Keyspace, w0: Seq<u8>, k: Seq<u8>, v: Seq<u8>, opt: Seq<u8>, n_text: Seq<u8>, n: i64, millis: bool,
    t: u64, s2: Keyspace, r: Reply,
)
    requires
        upper_text(lossy_text(opt)) == if millis { "PX"@ } else { "EX"@ },
        i64_of_text(n_text) == Some(n),
        outcome(s, "SET"@, seq![w0, k, v, opt, n_text], t, s2, r),
    ensures
        r == ok_reply(),
        s2.data.contains_key(k) && s2.data[k] == Item::Str(v),
        s2.expires.contains_key(k),
        s2.expires[k] == t + (if n < 0 { 0 } else { n as int }) * (if millis { 1int } else { 1000int }),
{
    let a = seq![w0, k, v, opt, n_text];
    let x = bump(s);
    lemma_runs_set(x, a, t);
    reveal_strlit("EX");
    reveal_strlit("PX");
    assert("PX"@[0] != "EX"@[0]);
    assert(crate::semantics::option_pairs(a.len() as int) == 1);
    let e0 = x.expires.remove(k);
    assert(set_options(e0, a, t, 0) == Some(e0));
}

/// The distinct fields among `a[2]` to `a[n + 1]` that the hash `h` holds.
pub open spec fn held_fields(h: Map<Seq<u8>, Seq<u8>>, a: Seq<Seq<u8>>, n: int) -> Set<Seq<u8>> {
    Set::new(|f: Seq<u8>| exists|i: int| 2 <= i <= n + 1 && #[trigger] a[i] == f && h.contains_key(f))
}

proof fn lemma_hdel_fields_effect(h: Map<Seq<u8>, Seq<u8>>, a: Seq<Seq<u8>>, n: nat)
    requires
        n + 1 < a.len(),
    ensures
        forall|i: int| 2 <= i <= n + 1 ==> !(#[trigger] hdel_fields(h, a, n).0.contains_key(a[i])),
        forall|f: Seq<u8>| (forall|i: int| 2 <= i <= n + 1 ==> #[trigger] a[i] != f) ==> {
            &&& #[trigger] hdel_fields(h, a, n).0.contains_key(f) == h.contains_key(f)
            &&& hdel_fields(h, a, n).0[f] == h[f]
        },
        held_fields(h, a, n as int).finite(),
        hdel_fields(h, a, n).1 == held_fields(h, a, n as int).len(),
        hdel_fields(h, a, n).1 <= n,
    decreases n,
{
    if n == 0 {
        assert(held_fields(h, a, 0) =~= Set::<Seq<u8>>::empty());
    } else {
        let m = (n - 1) as nat;
        lemma_hdel_fields_effect(h, a, m);
        let (hm, cm) = hdel_fields(h, a, m);
        let f = a[1 + n as int];
        let before = held_fields(h, a, m as int);
        let after = held_fields(h, a, n as int);
        if forall|i: int| 2 <= i <= m + 1 ==> #[trigger] a[i] != f {
            assert(hdel_fields(h, a, m).0.contains_key(f) == h.contains_key(f));
            if h.contains_key(f) {
                assert(after =~= before.insert(f)) by {
                    assert(a[1 + n as int] == f);
                }
                assert(!before.contains(f)) by {
                    if before.contains(f) {
                        let i = choose|i: int| 2 <= i <= m + 1 && #[trigger] a[i] == f && h.contains_key(f);
                        assert(a[i] != f);
                    }
                }
            } else {
                assert(after =~= before);
            }
        } else {
            let j = choose|j: int| 2 <= j <= m + 1 && #[trigger] a[j] == f;
            assert(!hm.contains_key(a[j]));
            assert(after =~= before) by {
                if h.contains_key(f) {
                    assert(before.contains(f)) by {
                        assert(2 <= j <= m + 1 && a[j] == f && h.contains_key(f));
                    }
                }
            }
        }
        assert forall|i: int| 2 <= i <= n + 1 implies !(#[trigger] hdel_fields(h, a, n).0.contains_key(a[i])) by {
            if i < n + 1 {
                assert(!hm.contains_key(a[i]));
            }
        }
        assert forall|g: Seq<u8>| (forall|i: int| 2 <= i <= n + 1 ==> #[trigger] a[i] != g) implies {
            &&& #[trigger] hdel_fields(h, a, n).0.contains_key(g) == h.contains_key(g)
            &&& hdel_fields(h, a, n).0[g] == h[g]
        } by {
            assert(a[1 + n as int] != g);
            assert(forall|i: int| 2 <= i <= m + 1 ==> #[trigger] a[i] != g);
        }
    }
}

/// `HDEL key f1 .. fn` on a live hash removes every field it names, keeps the other fields, and
/// answers how many distinct named fields the hash held.
pub proof fn law_hdel_removes_named_fields(
    s: Keyspace, k: Seq<u8>, a: Seq<Seq<u8>>, t: u64, s2: Keyspace, r: Reply,
)
    requires
        3 <= a.len() <= i64::MAX,
        a[1] == k,
        is_live(s, k, t),
        s.data[k] is Hash,
        outcome(s, "HDEL"@, a, t, s2, r),
    ensures
        s2.data.contains_key(k) && s2.data[k] is Hash,
        forall|i: int| 2 <= i < a.len() ==> !(#[trigger] s2.data[k]->Hash_0.contains_key(a[i])),
        forall|f: Seq<u8>| (forall|i: int| 2 <= i < a.len() ==> #[trigger] a[i] != f) ==> {
            &&& #[trigger] s2.data[k]->Hash_0.contains_key(f) == s.data[k]->Hash_0.contains_key(f)
            &&& s2.data[k]->Hash_0[f] == s.data[k]->Hash_0[f]
        },
        r == Reply::Int(held_fields(s.data[k]->Hash_0, a, a.len() - 2).len() as int),
{
    let x = bump(s);
    lemma_runs_hdel(x, a, t);
    lemma_expired_live(s, k, t);
    let h = s.data[k]->Hash_0;
    let n = (a.len() - 2) as nat;
    lemma_hdel_fields_effect(h, a, n);
    assert forall|f: Seq<u8>| (forall|i: int| 2 <= i < a.len() ==> #[trigger] a[i] != f) implies {
        &&& #[trigger] s2.data[k]->Hash_0.contains_key(f) == h.contains_key(f)
        &&& s2.data[k]->Hash_0[f] == h[f]
    } by {
        assert(forall|i: int| 2 <= i <= n + 1 ==> #[trigger] a[i] != f);
    }
}

/// The field of the `q`-th field/value pair of an `HSET`, counting from 1.
pub open spec fn pair_field(a: Seq<Seq<u8>>, q: int) -> Seq<u8> {
    a[2 * q]
}

/// The value of the `q`-th field/value pair of an `HSET`, counting from 1.
pub open spec fn pair_value(a: Seq<Seq<u8>>, q: int) -> Seq<u8> {
    a[2 * q + 1]
}

/// The distinct fields of the first `p` pairs that the hash `h` did not hold.
pub open spec fn new_fields(h: Map<Seq<u8>, Seq<u8>>, a: Seq<Seq<u8>>, p: int) -> Set<Seq<u8>> {
    Set::new(|f: Seq<u8>| exists|q: int| 1 <= q <= p && #[trigger] pair_field(a, q) == f && !h.contains_key(f))
}

proof fn lemma_hset_fields_effect(h: Map<Seq<u8>, Seq<u8>>, a: Seq<Seq<u8>>, p: nat)
    requires
        2 * p + 1 < a.len(),
    ensures
        forall|q: int| 1 <= q <= p ==> #[trigger] hset_fields(h, a, p).0.contains_key(pair_field(a, q)),
        forall|q: int| 1 <= q <= p && (forall|q2: int| q < q2 <= p ==> #[trigger] pair_field(a, q2) != pair_field(a, q))
            ==> #[trigger] hset_fields(h, a, p).0[pair_field(a, q)] == pair_value(a, q),
        forall|f: Seq<u8>| (forall|q: int| 1 <= q <= p ==> #[trigger] pair_field(a, q) != f) ==> {
            &&& #[trigger] hset_fields(h, a, p).0.contains_key(f) == h.contains_key(f)
            &&& hset_fields(h, a, p).0[f] == h[f]
        },
        new_fields(h, a, p as int).finite(),
        hset_fields(h, a, p).1 == new_fields(h, a, p as int).len(),
        hset_fields(h, a, p).1 <= p,
    decreases p,
{
    if p == 0 {
        assert(new_fields(h, a, 0) =~= Set::<Seq<u8>>::empty());
    } else {
        let m = (p - 1) as nat;
        lemma_hset_fields_effect(h, a, m);
        let (hm, cm) = hset_fields(h, a, m);
        let f = pair_field(a, p as int);
        let v = pair_value(a, p as int);
        assert(a[2 + 2 * (p - 1)] == f);
        assert(a[3 + 2 * (p - 1)] == v);
        let before = new_fields(h, a, m as int);
        let after = new_fields(h, a, p as int);
        if forall|q: int| 1 <= q <= m ==> #[trigger] pair_field(a, q) != f {
            assert(hset_fields(h, a, m).0.contains_key(f) == h.contains_key(f));
            if !h.contains_key(f) {
                assert(after =~= before.insert(f)) by {
                    assert(pair_field(a, p as int) == f);
                }
                assert(!before.contains(f)) by {
                    if before.contains(f) {
                        let q = choose|q: int| 1 <= q <= m && #[trigger] pair_field(a, q) == f && !h.contains_key(f);
                        assert(pair_field(a, q) != f);
                    }
                }
            } else {
                assert(after =~= before);
            }
        } else {
            let j = choose|j: int| 1 <= j <= m && #[trigger] pair_field(a, j) == f;
            assert(hm.contains_key(pair_field(a, j)));
            assert(after =~= before) by {
                if !h.contains_key(f) {
                    assert(before.contains(f)) by {
                        assert(1 <= j <= m && pair_field(a, j) == f && !h.contains_key(f));
                    }
                }
            }
        }
        let hp = hset_fields(h, a, p).0;
        assert(hp == hm.insert(f, v));
        assert forall|q: int| 1 <= q <= p implies #[trigger] hset_fields(h, a, p).0.contains_key(pair_field(a, q)) by {
            if q < p {
                assert(hm.contains_key(pair_field(a, q)));
            }
        }
        assert forall|q: int| 1 <= q <= p && (forall|q2: int| q < q2 <= p ==> #[trigger] pair_field(a, q2) != pair_field(a, q))
            implies #[trigger] hset_fields(h, a, p).0[pair_field(a, q)] == pair_value(a, q) by {
            if q < p {
                assert(pair_field(a, p as int) != pair_field(a, q));
                assert(forall|q2: int| q < q2 <= m ==> #[trigger] pair_field(a, q2) != pair_field(a, q));
                assert(hm[pair_field(a, q)] == pair_value(a, q));
            }
        }
        assert forall|g: Seq<u8>| (forall|q: int| 1 <= q <= p ==> #[trigger] pair_field(a, q) != g) implies {
            &&& #[trigger] hset_fields(h, a, p).0.contains_key(g) == h.contains_key(g)
            &&& hset_fields(h, a, p).0[g] == h[g]
        } by {
            assert(pair_field(a, p as int) != g);
            assert(forall|q: int| 1 <= q <= m ==> #[trigger] pair_field(a, q) != g);
        }
    }
}

/// `HSET key f1 v1 .. fn vn` on a key that holds a live hash, or nothing live, leaves every
/// named field set, each to the value of its last pair, keeps the other fields, and answers how
/// many distinct named fields are new.
pub proof fn law_hset_sets_fields(
    s: Keyspace, k: Seq<u8>, a: Seq<Seq<u8>>, t: u64, s2: Keyspace, r: Reply,
)
    requires
        4 <= a.len() <= i64::MAX,
        a.len() % 2 == 0,
        a[1] == k,
        is_live(s, k, t) ==> s.data[k] is Hash,
        outcome(s, "HSET"@, a, t, s2, r),
    ensures
        s2.data.contains_key(k) && s2.data[k] is Hash,
        forall|q: int| 1 <= q < a.len() / 2 ==> #[trigger] s2.data[k]->Hash_0.contains_key(pair_field(a, q)),
        forall|q: int| 1 <= q < a.len() / 2 && (forall|q2: int| q < q2 < a.len() / 2 ==> #[trigger] pair_field(a, q2) != pair_field(a, q))
            ==> #[trigger] s2.data[k]->Hash_0[pair_field(a, q)] == pair_value(a, q),
        forall|f: Seq<u8>| (forall|q: int| 1 <= q < a.len() / 2 ==> #[trigger] pair_field(a, q) != f) ==> {
            &&& #[trigger] s2.data[k]->Hash_0.contains_key(f) == live_hash(s, k, t).contains_key(f)
            &&& s2.data[k]->Hash_0[f] == live_hash(s, k, t)[f]
        },
        r == Reply::Int(new_fields(live_hash(s, k, t), a, a.len() / 2 - 1).len() as int),
{
    let x = bump(s);
    lemma_runs_hset(x, a, t);
    lemma_expired_live(s, k, t);
    let h = live_hash(s, k, t);
    let p = ((a.len() - 2) / 2) as nat;
    assert(p == a.len() / 2 - 1);
    if !is_live(s, k, t) {
        assert(h == Map::<Seq<u8>, Seq<u8>>::empty());
    }
    lemma_hset_fields_effect(h, a, p);
    assert forall|f: Seq<u8>| (forall|q: int| 1 <= q < a.len() / 2 ==> #[trigger] pair_field(a, q) != f) implies {
        &&& #[trigger] s2.data[k]->Hash_0.contains_key(f) == h.contains_key(f)
        &&& s2.data[k]->Hash_0[f] == h[f]
    } by {
        assert(forall|q: int| 1 <= q <= p ==> #[trigger] pair_field(a, q) != f);
    }
}

/// The hash a key holds for `HSET` at `now`: its hash when it is a live hash, else empty.
pub open spec fn live_hash(s: Keyspace, k: Seq<u8>, now: u64) -> Map<Seq<u8>, Seq<u8>> {
    if is_live(s, k, now) && s.data[k] is Hash { s.data[k]->Hash_0 } else { Map::empty() }
}

/// `INCR` on a key holding the integer `c` (a live string that reads as `c`, or nothing live,
/// then `c` is 0) answers `c + 1` and leaves the key holding its decimal text; `DECR` does the
/// same with `c - 1`.
pub proof fn law_incr_steps_by_one(
    s: Keyspace, down: bool, w0: Seq<u8>, k: Seq<u8>, b: Seq<u8>, c: i64, t: u64, s2: Keyspace, r: Reply,
)
    requires
        (is_live(s, k, t) && s.data[k] == Item::Str(b) && i64_of_text(b) == Some(c))
            || (!is_live(s, k, t) && c == 0),
        outcome(s, if down { "DECR"@ } else { "INCR"@ }, seq![w0, k], t, s2, r),
    ensures
        r == Reply::Int(if down { c - 1 } else { c + 1 }),
        s2.data.contains_key(k),
        s2.data[k] == Item::Str(decimal_text(if down { c - 1 } else { c + 1 })),
{
    let x = bump(s);
    if down {
        lemma_runs_decr(x, seq![w0, k], t);
    } else {
        lemma_runs_incr(x, seq![w0, k], t);
    }
    lemma_expired_live(s, k, t);
}

/// `LPOP` on a live list that is not empty answers its first item and leaves the rest; `RPOP`
/// answers its last item and leaves the others. On a key that is not live both answer nothing.
pub proof fn law_pop_takes_an_end(
    s: Keyspace, left: bool, w0: Seq<u8>, k: Seq<u8>, t: u64, s2: Keyspace, r: Reply,
)
    requires
        outcome(s, if left { "LPOP"@ } else { "RPOP"@ }, seq![w0, k], t, s2, r),
    ensures
        !is_live(s, k, t) ==> r == Reply::Null,
        is_live(s, k, t) && s.data[k] is List && s.data[k]->List_0.len() > 0 ==> {
            let l = s.data[k]->List_0;
            &&& s2.data.contains_key(k)
            &&& left ==> r == Reply::Bulk(l[0]) && s2.data[k] == Item::List(l.subrange(1, l.len() as int))
            &&& !left ==> r == Reply::Bulk(l[l.len() - 1]) && s2.data[k] == Item::List(l.subrange(0, l.len() - 1))
        },
{
    let x = bump(s);
    if left {
        lemma_runs_lpop(x, seq![w0, k], t);
    } else {
        lemma_runs_rpop(x, seq![w0, k], t);
    }
    lemma_expired_live(s, k, t);
}

/// `HGET key f` answers the value of field `f` of a live hash, and nothing when the hash lacks
/// the field or the key is not live; `HLEN` answers how many fields a live hash holds, and 0
/// for a key that is not live.
pub proof fn law_hash_reads(
    s: Keyspace, w0: Seq<u8>, w1: Seq<u8>, k: Seq<u8>, f: Seq<u8>, t: u64,
    s2: Keyspace, r1: Reply, s3: Keyspace, r2: Reply,
)
    requires
        is_live(s, k, t) && s.data[k] is Hash ==> s.data[k]->Hash_0.len() <= i64::MAX,
        outcome(s, "HGET"@, seq![w0, k, f], t, s2, r1),
        outcome(s, "HLEN"@, seq![w1, k], t, s3, r2),
    ensures
        !is_live(s, k, t) ==> r1 == Reply::Null && r2 == Reply::Int(0),
        is_live(s, k, t) && s.data[k] is Hash ==> {
            let h = s.data[k]->Hash_0;
            &&& r1 == (if h.contains_key(f) { Reply::Bulk(h[f]) } else { Reply::Null })
            &&& r2 == Reply::Int(h.len() as int)
        },
{
    lemma_runs_hget(bump(s), seq![w0, k, f], t);
    lemma_runs_hlen(bump(s), seq![w1, k], t);
    lemma_expired_live(s, k, t);
}

/// `GET` counts a hit when it finds a live string and a miss when the key is not live, and
/// changes neither count otherwise.
pub proof fn law_get_counts_hits_and_misses(s: Keyspace, w0: Seq<u8>, k: Seq<u8>, t: u64, s2: Keyspace, r: Reply)
    requires
        outcome(s, "GET"@, seq![w0, k], t, s2, r),
    ensures
        !is_live(s, k, t) ==> s2.misses == s.misses + 1 && s2.hits == s.hits,
        is_live(s, k, t) && s.data[k] is Str ==> s2.hits == s.hits + 1 && s2.misses == s.misses,
        is_live(s, k, t) && !(s.data[k] is Str) ==> s2.hits == s.hits && s2.misses == s.misses,
{
    lemma_runs_get(bump(s), seq![w0, k], t);
    lemma_expired_live(s, k, t);
}

}
