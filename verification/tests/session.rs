use rudis::render::{plain_text, show, LineKind};
use rudis::repl::{exec_line, keep_last, on_key, Key, KeyAction};
use rudis::session::{serve_step, Step};
use rudis::{Store, Value};

fn answer(step: Option<Step>) -> (usize, Vec<u8>, bool) {
    match step {
        Some(Step::Answer { used, out, quit }) => (used, out, quit),
        _ => panic!("expected an answer"),
    }
}

#[test]
fn a_step_answers_one_command_and_says_how_much_it_used() {
    let mut s = Store::default();
    let buf = b"*3\r\n$3\r\nSET\r\n$1\r\nk\r\n$1\r\nv\r\n*2\r\n$3\r\nGET\r\n$1\r\nk\r\n";
    let (used, out, quit) = answer(serve_step(&mut s, buf, 0));
    assert_eq!(used, 27);
    assert_eq!(out, b"+OK\r\n");
    assert!(!quit);
    let (used, out, quit) = answer(serve_step(&mut s, &buf[27..], 0));
    assert_eq!(used, 20);
    assert_eq!(out, b"$1\r\nv\r\n");
    assert!(!quit);
}

#[test]
fn quit_in_any_case_closes_after_the_reply() {
    let mut s = Store::default();
    let (used, out, quit) = answer(serve_step(&mut s, b"qUiT\r\n", 0));
    assert_eq!(used, 6);
    assert_eq!(out, b"+OK\r\n");
    assert!(quit);
    let (_, _, quit) = answer(serve_step(&mut s, b"QUITE\r\n", 0));
    assert!(!quit);
}

#[test]
fn a_partial_frame_waits_and_leaves_the_keyspace() {
    let mut s = Store::default();
    assert!(matches!(serve_step(&mut s, b"*2\r\n$3\r\nGE", 0), Some(Step::Wait)));
    assert!(matches!(serve_step(&mut s, b"", 0), Some(Step::Wait)));
    assert_eq!(s.cmds, 0);
}

#[test]
fn a_malformed_frame_is_rejected_with_an_error_reply() {
    let mut s = Store::default();
    match serve_step(&mut s, b"*x\r\n", 0) {
        Some(Step::Reject { out }) => assert_eq!(out, b"-ERR bad multibulk length\r\n"),
        _ => panic!("expected a rejection"),
    }
    match serve_step(&mut s, b"*1\r\n+OK\r\n", 0) {
        Some(Step::Reject { out }) => assert_eq!(out, b"-ERR expected a bulk string\r\n"),
        _ => panic!("expected a rejection"),
    }
}

#[test]
fn a_blank_line_is_skipped() {
    let mut s = Store::default();
    assert!(matches!(serve_step(&mut s, b"   \r\nPING\r\n", 0), Some(Step::Skip { used: 5 })));
    assert_eq!(s.cmds, 0);
}

#[test]
fn a_step_that_cannot_finish_gives_nothing() {
    let mut s = Store::default();
    exec_line(&mut s, "SET n 9223372036854775807", 0).unwrap();
    assert!(serve_step(&mut s, b"INCR n\r\n", 0).is_none());
}

fn texts(v: &Value) -> Vec<(Vec<usize>, LineKind, String)> {
    show(v).into_iter().map(|l| (l.marks, l.kind, l.text)).collect()
}

#[test]
fn replies_are_shown_like_an_interactive_client() {
    assert_eq!(texts(&Value::ok()), vec![(vec![], LineKind::Status, "OK".to_string())]);
    assert_eq!(texts(&Value::err("ERR boom")), vec![(vec![], LineKind::Failure, "(error) ERR boom".to_string())]);
    assert_eq!(texts(&Value::Int(-42)), vec![(vec![], LineKind::Integer, "(integer) -42".to_string())]);
    assert_eq!(texts(&Value::bulk("hi")), vec![(vec![], LineKind::Text, "\"hi\"".to_string())]);
    assert_eq!(texts(&Value::Bulk(vec![0xff])), vec![(vec![], LineKind::Text, "\"\u{fffd}\"".to_string())]);
    assert_eq!(texts(&Value::Null), vec![(vec![], LineKind::Nothing, "(nil)".to_string())]);
    assert_eq!(texts(&Value::Array(vec![])), vec![(vec![], LineKind::Nothing, "(empty array)".to_string())]);
}

#[test]
fn nested_arrays_number_the_first_line_of_each_item() {
    let v = Value::Array(vec![
        Value::bulk("a"),
        Value::Array(vec![Value::Int(1), Value::Int(2)]),
        Value::Null,
    ]);
    assert_eq!(
        texts(&v),
        vec![
            (vec![1], LineKind::Text, "\"a\"".to_string()),
            (vec![2, 1], LineKind::Integer, "(integer) 1".to_string()),
            (vec![2], LineKind::Integer, "(integer) 2".to_string()),
            (vec![3], LineKind::Nothing, "(nil)".to_string()),
        ]
    );
    assert_eq!(plain_text(&show(&v)), "1) \"a\"\n2) 1) (integer) 1\n2) (integer) 2\n3) (nil)");
}

#[test]
fn plain_text_of_nothing_is_empty() {
    assert_eq!(plain_text(&[]), "");
    assert_eq!(plain_text(&show(&Value::Int(12))), "(integer) 12");
}

#[test]
fn typed_lines_split_on_any_white_space() {
    let mut s = Store::default();
    let lines = exec_line(&mut s, "  set\tgreeting \u{3000}hello  ", 5).unwrap();
    assert_eq!(plain_text(&lines), "OK");
    let lines = exec_line(&mut s, "GET greeting", 5).unwrap();
    assert_eq!(plain_text(&lines), "\"hello\"");
    let lines = exec_line(&mut s, " \t ", 5).unwrap();
    assert!(lines.is_empty());
    assert_eq!(s.cmds, 2);
}

#[test]
fn typed_lines_show_lists_numbered() {
    let mut s = Store::default();
    exec_line(&mut s, "RPUSH l a b", 0).unwrap();
    let lines = exec_line(&mut s, "LRANGE l 0 -1", 0).unwrap();
    assert_eq!(plain_text(&lines), "1) \"a\"\n2) \"b\"");
}

#[test]
fn a_connection_answers_frame_by_frame_however_the_bytes_arrive() {
    let stream: &[u8] = b"*3\r\n$3\r\nSET\r\n$1\r\nk\r\n$1\r\nv\r\nGET k\r\n\r\n*2\r\n$4\r\nECHO\r\n$2\r\nhi\r\n";
    for chunk in [1usize, 2, 3, 5, 7, 64] {
        let mut s = Store::default();
        let mut buf: Vec<u8> = Vec::new();
        let mut sent: Vec<u8> = Vec::new();
        for piece in stream.chunks(chunk) {
            buf.extend_from_slice(piece);
            loop {
                match serve_step(&mut s, &buf, 0) {
                    Some(Step::Answer { used, out, .. }) => {
                        buf.drain(..used);
                        sent.extend_from_slice(&out);
                    }
                    Some(Step::Skip { used }) => {
                        buf.drain(..used);
                    }
                    Some(Step::Wait) => break,
                    _ => panic!("unexpected step"),
                }
            }
        }
        assert!(buf.is_empty());
        assert_eq!(sent, b"+OK\r\n$1\r\nv\r\n$2\r\nhi\r\n");
        assert_eq!(s.cmds, 3);
    }
}

#[test]
fn keys_edit_and_run_the_prompt_line() {
    let mut input: Vec<char> = Vec::new();
    assert_eq!(on_key(&mut input, Key::Char('a')), KeyAction::Stay);
    assert_eq!(on_key(&mut input, Key::Char('b')), KeyAction::Stay);
    assert_eq!(on_key(&mut input, Key::Backspace), KeyAction::Stay);
    assert_eq!(input, vec!['a']);
    assert_eq!(on_key(&mut input, Key::Other), KeyAction::Stay);
    assert_eq!(on_key(&mut input, Key::Enter), KeyAction::RunLine);
    assert_eq!(input, vec!['a']);
    input.clear();
    assert_eq!(on_key(&mut input, Key::Backspace), KeyAction::Stay);
    assert!(input.is_empty());
    assert_eq!(on_key(&mut input, Key::Esc), KeyAction::Quit);

    let mut v: Vec<u32> = (0..10).collect();
    keep_last(&mut v, 3);
    assert_eq!(v, vec![7, 8, 9]);
    keep_last(&mut v, 5);
    assert_eq!(v, vec![7, 8, 9]);
}
