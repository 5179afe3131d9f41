use rudis::resp::{encode, parse_command, Value};

#[test]
fn encodes_replies() {
    let mut o = Vec::new();
    encode(&Value::ok(), &mut o);
    assert_eq!(o, b"+OK\r\n");
    o.clear();
    encode(&Value::Int(7), &mut o);
    assert_eq!(o, b":7\r\n");
    o.clear();
    encode(&Value::bulk("hi"), &mut o);
    assert_eq!(o, b"$2\r\nhi\r\n");
    o.clear();
    encode(&Value::Null, &mut o);
    assert_eq!(o, b"$-1\r\n");
}

#[test]
fn parses_resp_and_inline() {
    let (a, n) = parse_command(b"*2\r\n$3\r\nGET\r\n$3\r\nfoo\r\n").unwrap().unwrap();
    assert_eq!(a, vec![b"GET".to_vec(), b"foo".to_vec()]);
    assert_eq!(n, 22);

    let (a, _) = parse_command(b"PING\r\n").unwrap().unwrap();
    assert_eq!(a, vec![b"PING".to_vec()]);

    // incomplete -> None
    assert!(parse_command(b"*2\r\n$3\r\nGE").unwrap().is_none());
}

#[test]
fn encodes_errors_negatives_and_arrays() {
    let mut o = Vec::new();
    encode(&Value::Error("ERR x".to_string()), &mut o);
    encode(&Value::Int(-42), &mut o);
    encode(&Value::Array(vec![Value::bulk(""), Value::Array(vec![]), Value::Null]), &mut o);
    assert_eq!(o, b"-ERR x\r\n:-42\r\n*3\r\n$0\r\n\r\n*0\r\n$-1\r\n");
}

#[test]
fn encoded_requests_parse_back() {
    let args: Vec<Vec<u8>> = vec![b"SET".to_vec(), b"k\r\ny".to_vec(), Vec::new()];
    let mut o = Vec::new();
    encode(&Value::Array(args.iter().map(|a| Value::Bulk(a.clone())).collect()), &mut o);
    let len = o.len();
    o.extend_from_slice(b"*1\r\n$4\r\nPING\r\n");
    let (a, n) = parse_command(&o).unwrap().unwrap();
    assert_eq!(a, args);
    assert_eq!(n, len);
    let (b, m) = parse_command(&o[n..]).unwrap().unwrap();
    assert_eq!(b, vec![b"PING".to_vec()]);
    assert_eq!(m, o.len() - n);
}

#[test]
fn inline_commands_split_on_spaces() {
    let (a, n) = parse_command(b"  SET  k   v \nrest").unwrap().unwrap();
    assert_eq!(a, vec![b"SET".to_vec(), b"k".to_vec(), b"v".to_vec()]);
    assert_eq!(n, 14);
    let (a, n) = parse_command(b"\r\n").unwrap().unwrap();
    assert!(a.is_empty());
    assert_eq!(n, 2);
    assert!(parse_command(b"PING").unwrap().is_none());
    assert!(parse_command(b"").unwrap().is_none());
}

#[test]
fn malformed_frames() {
    assert_eq!(parse_command(b"*x\r\n"), Err("bad multibulk length".to_string()));
    assert_eq!(parse_command(b"*1\r\n:3\r\n"), Err("expected a bulk string".to_string()));
    assert_eq!(parse_command(b"*1\r\n$-1\r\n"), Err("bad bulk length".to_string()));
    assert!(parse_command(b"*1\r\n").unwrap().is_none());
    assert!(parse_command(b"*1\r\n$3\r\nab").unwrap().is_none());
    assert!(parse_command(b"*1\r\n$18446744073709551615\r\nab").unwrap().is_none());
    let (a, n) = parse_command(b"*-1\r\n").unwrap().unwrap();
    assert!(a.is_empty());
    assert_eq!(n, 5);
}

#[test]
fn a_cloned_reply_is_equal_and_independent() {
    let v = Value::Array(vec![Value::bulk("a"), Value::Array(vec![Value::Int(-1), Value::Null]), Value::err("ERR x")]);
    let mut c = v.clone();
    assert_eq!(c, v);
    if let Value::Array(items) = &mut c {
        items.push(Value::ok());
    }
    assert_ne!(c, v);
}
