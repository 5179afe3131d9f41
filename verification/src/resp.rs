use vstd::prelude::*;
use vstd::utf8::*;
use vstd::string::StringSliceAdditionalSpecFns;
use crate::text::{decimal_text, i64_text, u64_text, i64_of_text, usize_of_text, parse_int, parse_len};

verus! {

/// A RESP reply.
#[derive(Debug, PartialEq)]
pub enum Value {
    Simple(String),
    Error(String),
    Int(i64),
    Bulk(Vec<u8>),
    Null,
    Array(Vec<Value>),
}

/// What a reply means: its text, number, bytes or items.
pub enum Reply {
    Simple(Seq<char>),
    Error(Seq<char>),
    Int(int),
    Bulk(Seq<u8>),
    Null,
    Array(Seq<Reply>),
}

impl View for Value {
    type V = Reply;

    open spec fn view(&self) -> Reply
        decreases self,
    {
        match self {
            Value::Simple(s) => Reply::Simple(s@),
            Value::Error(s) => Reply::Error(s@),
            Value::Int(n) => Reply::Int(*n as int),
            Value::Bulk(b) => Reply::Bulk(b@),
            Value::Null => Reply::Null,
            Value::Array(a) => Reply::Array(
                Seq::new(a@.len(), |i: int| if 0 <= i < a@.len() { a@[i].view() } else { Reply::Null }),
            ),
        }
    }
}

/// A copy of a reply, item by item.
fn copy_value(v: &Value) -> (c: Value)
    ensures
        c@ == v@,
    decreases v,
{
    match v {
        Value::Simple(s) => Value::Simple(s.clone()),
        Value::Error(s) => Value::Error(s.clone()),
        Value::Int(n) => Value::Int(*n),
        Value::Bulk(b) => Value::Bulk(copy_bytes(b.as_slice())),
        Value::Null => Value::Null,
        Value::Array(a) => {
            let mut items: Vec<Value> = Vec::new();
            let mut i: usize = 0;
            while i < a.len()
                invariant
                    i <= a@.len(),
                    *v == Value::Array(*a),
                    items@.len() == i,
                    forall|j: int| 0 <= j < i ==> #[trigger] items@[j]@ == a@[j]@,
                decreases a@.len() - i,
            {
                proof {
                    assert(decreases_to!(*v => v->Array_0));
                    assert(decreases_to!(*a => a@));
                    assert(decreases_to!(a@ => a@[i as int]));
                }
                let c = copy_value(&a[i]);
                items.push(c);
                i = i + 1;
            }
            let c = Value::Array(items);
            proof {
                let p = Seq::new(items@.len(), |j: int| if 0 <= j < items@.len() { items@[j].view() } else { Reply::Null });
                let q = Seq::new(a@.len(), |j: int| if 0 <= j < a@.len() { a@[j].view() } else { Reply::Null });
                let x = c@;
                let y = v@;
                assert(x matches Reply::Array(s) && s =~= p);
                assert(y matches Reply::Array(s) && s =~= q);
                assert(p =~= q);
                assert(x =~= y);
            }
            c
        },
    }
}

impl Clone for Value {
    fn clone(&self) -> (c: Self)
        ensures
            c@ == self@,
    {
        copy_value(self)
    }
}

/// Appends the bytes of `b` to `out`.
pub(crate) fn push_bytes(out: &mut Vec<u8>, b: &[u8])
    ensures
        final(out)@ == old(out)@ + b@,
{
    let mut i: usize = 0;
    while i < b.len()
        invariant
            i <= b@.len(),
            out@ == old(out)@ + b@.subrange(0, i as int),
        decreases b@.len() - i,
    {
        out.push(b[i]);
        i = i + 1;
        proof {
            assert(b@.subrange(0, i as int) =~= b@.subrange(0, i - 1).push(b@[i - 1]));
        }
    }
    assert(b@.subrange(0, b@.len() as int) =~= b@);
}

/// A copy of the bytes of `b`.
pub(crate) fn copy_bytes(b: &[u8]) -> (v: Vec<u8>)
    ensures
        v@ == b@,
{
    let mut v: Vec<u8> = Vec::new();
    push_bytes(&mut v, b);
    v
}

impl Value {
    pub fn ok() -> (v: Value)
        ensures
            v@ == Reply::Simple("OK"@),
    {
        Value::Simple(String::from_str("OK"))
    }

    pub fn err(msg: &str) -> (v: Value)
        ensures
            v@ == Reply::Error(msg@),
    {
        Value::Error(String::from_str(msg))
    }

    /// A bulk reply holding the UTF-8 bytes of `s`.
    pub fn bulk(s: &str) -> (v: Value)
        ensures
            v@ == Reply::Bulk(s.spec_bytes()),
    {
        Value::Bulk(copy_bytes(s.as_bytes()))
    }
}

/// The two bytes that end a RESP line.
pub open spec fn crlf() -> Seq<u8> {
    seq![13u8, 10u8]
}

/// A RESP line: the type byte, the body, CRLF.
pub open spec fn framed(tag: u8, body: Seq<u8>) -> Seq<u8> {
    seq![tag] + body + crlf()
}

/// The wire bytes of a reply.
pub open spec fn reply_bytes(r: Reply) -> Seq<u8>
    decreases r, 0nat,
{
    match r {
        Reply::Simple(s) => framed(43u8, encode_utf8(s)),
        Reply::Error(s) => framed(45u8, encode_utf8(s)),
        Reply::Int(n) => framed(58u8, decimal_text(n)),
        Reply::Bulk(b) => framed(36u8, decimal_text(b.len() as int)) + b + crlf(),
        Reply::Null => seq![36u8, 45u8, 49u8, 13u8, 10u8],
        Reply::Array(a) => framed(42u8, decimal_text(a.len() as int)) + replies_bytes(a, a.len()),
    }
}

/// The wire bytes of the first `n` replies of `a`, one after another.
pub open spec fn replies_bytes(a: Seq<Reply>, n: nat) -> Seq<u8>
    decreases a, n,
{
    if n == 0 || n > a.len() {
        Seq::empty()
    } else {
        replies_bytes(a, (n - 1) as nat) + reply_bytes(a[n - 1])
    }
}

/// Appends a RESP line to `out`.
fn line(out: &mut Vec<u8>, tag: u8, body: &[u8])
    ensures
        final(out)@ == old(out)@ + framed(tag, body@),
{
    out.push(tag);
    push_bytes(out, body);
    out.push(13u8);
    out.push(10u8);
    proof {
        assert(final(out)@ =~= old(out)@ + framed(tag, body@));
    }
}

/// Serialises a reply onto the end of `out`.
pub fn encode(v: &Value, out: &mut Vec<u8>)
    ensures
        final(out)@ == old(out)@ + reply_bytes(v@),
    decreases v,
{
    match v {
        Value::Simple(s) => line(out, 43u8, s.as_str().as_bytes()),
        Value::Error(s) => line(out, 45u8, s.as_str().as_bytes()),
        Value::Int(n) => {
            let t = i64_text(*n);
            line(out, 58u8, t.as_slice());
        },
        Value::Bulk(b) => {
            let t = u64_text(b.len() as u64);
            line(out, 36u8, t.as_slice());
            push_bytes(out, b.as_slice());
            out.push(13u8);
            out.push(10u8);
            proof {
                assert(final(out)@ =~= old(out)@ + reply_bytes(v@));
            }
        },
        Value::Null => {
            out.push(36u8);
            out.push(45u8);
            out.push(49u8);
            out.push(13u8);
            out.push(10u8);
            proof {
                assert(final(out)@ =~= old(out)@ + reply_bytes(v@));
            }
        },
        Value::Array(a) => {
            let t = u64_text(a.len() as u64);
            line(out, 42u8, t.as_slice());
            let ghost items = Seq::new(a@.len(), |i: int| if 0 <= i < a@.len() { a@[i].view() } else { Reply::Null });
            let ghost head = out@;
            let mut i: usize = 0;
            while i < a.len()
                invariant
                    i <= a@.len(),
                    *v == Value::Array(*a),
                    items.len() == a@.len(),
                    forall|j: int| 0 <= j < a@.len() ==> #[trigger] items[j] == a@[j]@,
                    out@ == head + replies_bytes(items, i as nat),
                decreases a@.len() - i,
            {
                proof {
                    assert(decreases_to!(*v => v->Array_0));
                    assert(decreases_to!(*a => a@));
                    assert(decreases_to!(a@ => a@[i as int]));
                }
                encode(&a[i], out);
                i = i + 1;
                proof {
                    assert(items[i - 1] == a@[i - 1]@);
                    assert(out@ =~= head + replies_bytes(items, i as nat));
                }
            }
            proof {
                let r = v@;
                assert(r matches Reply::Array(s) && s =~= items);
                assert(final(out)@ =~= old(out)@ + reply_bytes(v@));
            }
        },
    }
}


/// The byte strings held by a sequence of byte vectors.
pub open spec fn byte_strings(v: Seq<Vec<u8>>) -> Seq<Seq<u8>> {
    v.map_values(|b: Vec<u8>| b@)
}

/// The position of the first line feed at or after `pos`.
pub open spec fn newline_from(buf: Seq<u8>, pos: int) -> Option<int>
    decreases buf.len() - pos,
{
    if pos < 0 || pos >= buf.len() {
        None
    } else if buf[pos] == 10u8 {
        Some(pos)
    } else {
        newline_from(buf, pos + 1)
    }
}

/// The line that starts at `pos`, without its line feed and without a carriage return just
/// before it, and the position just past the line feed; nothing when no line feed follows.
pub open spec fn line_at(buf: Seq<u8>, pos: int) -> Option<(Seq<u8>, int)> {
    match newline_from(buf, pos) {
        None => None,
        Some(nl) => {
            let end = if nl > pos && buf[nl - 1] == 13u8 { nl - 1 } else { nl };
            Some((buf.subrange(pos, end), nl + 1))
        },
    }
}

/// The space-separated words of `line` from position `i` on, where `cur` is the part of a
/// word read before `i`.
pub open spec fn words_from(line: Seq<u8>, i: int, cur: Seq<u8>) -> Seq<Seq<u8>>
    decreases line.len() - i,
{
    if i < 0 || i >= line.len() {
        if cur.len() > 0 { seq![cur] } else { Seq::empty() }
    } else if line[i] == 32u8 {
        (if cur.len() > 0 { seq![cur] } else { Seq::empty() }) + words_from(line, i + 1, Seq::empty())
    } else {
        words_from(line, i + 1, cur.push(line[i]))
    }
}

/// The words of an inline command: the runs of bytes between spaces, empty runs left out.
pub open spec fn words(line: Seq<u8>) -> Seq<Seq<u8>> {
    words_from(line, 0, Seq::empty())
}

/// What reading a frame gives: `Ok(Some((args, used)))` for a whole command, `Ok(None)` when
/// more bytes are needed, `Err(message)` for a malformed frame.
pub type Frame = Result<Option<(Seq<Seq<u8>>, int)>, Seq<char>>;

/// `r` with `pre` put before the arguments it read.
pub open spec fn after(pre: Seq<Seq<u8>>, r: Frame) -> Frame {
    match r {
        Ok(Some((rest, end))) => Ok(Some((pre + rest, end))),
        other => other,
    }
}

/// Reading `remaining` bulk strings from `pos` on.
pub open spec fn bulk_items(buf: Seq<u8>, pos: int, remaining: nat) -> Frame
    decreases remaining,
{
    if remaining == 0 {
        Ok(Some((Seq::empty(), pos)))
    } else if pos >= buf.len() {
        Ok(None)
    } else if buf[pos] != 36u8 {
        Err("expected a bulk string"@)
    } else {
        match line_at(buf, pos) {
            None => Ok(None),
            Some((head, next)) => match usize_of_text(head.drop_first()) {
                None => Err("bad bulk length"@),
                Some(len) => if next + len + 2 > buf.len() {
                    Ok(None)
                } else {
                    after(seq![buf.subrange(next, next + len)], bulk_items(buf, next + len + 2, (remaining - 1) as nat))
                },
            },
        }
    }
}

/// Reading one command off the front of `buf`: a RESP array of bulk strings when it starts
/// with `*`, else an inline line of words.
pub open spec fn command_frame(buf: Seq<u8>) -> Frame {
    if buf.len() == 0 {
        Ok(None)
    } else if buf[0] != 42u8 {
        match line_at(buf, 0) {
            None => Ok(None),
            Some((text, next)) => Ok(Some((words(text), next))),
        }
    } else {
        match line_at(buf, 0) {
            None => Ok(None),
            Some((head, next)) => match i64_of_text(head.drop_first()) {
                None => Err("bad multibulk length"@),
                Some(count) => bulk_items(buf, next, if count < 0 { 0nat } else { count as nat }),
            },
        }
    }
}

/// What a parse result holds, as a frame.
pub open spec fn frame_of(r: Result<Option<(Vec<Vec<u8>>, usize)>, String>) -> Frame {
    match r {
        Ok(Some((args, used))) => Ok(Some((byte_strings(args@), used as int))),
        Ok(None) => Ok(None),
        Err(e) => Err(e@),
    }
}

/// Finds the line that starts at `pos`: where its text ends and where the next line starts.
fn read_line(buf: &[u8], pos: usize) -> (r: Option<(usize, usize)>)
    requires
        pos <= buf@.len(),
    ensures
        match r {
            Some((end, next)) => pos <= end < next <= buf@.len()
                && line_at(buf@, pos as int) == Some((buf@.subrange(pos as int, end as int), next as int))
                && (pos < buf@.len() && buf@[pos as int] != 10u8 && buf@[pos as int] != 13u8 ==> end > pos),
            None => line_at(buf@, pos as int) is None,
        },
{
    let mut i: usize = pos;
    while i < buf.len()
        invariant
            pos <= i <= buf@.len(),
            newline_from(buf@, pos as int) == newline_from(buf@, i as int),
        decreases buf@.len() - i,
    {
        if buf[i] == 10u8 {
            let end = if i > pos && buf[i - 1] == 13u8 { i - 1 } else { i };
            return Some((end, i + 1));
        }
        i = i + 1;
    }
    None
}

proof fn lemma_words_step(line: Seq<u8>, i: int, cur: Seq<u8>)
    requires
        0 <= i < line.len(),
    ensures
        words_from(line, i, cur) == if line[i] == 32u8 {
            (if cur.len() > 0 { seq![cur] } else { Seq::empty() }) + words_from(line, i + 1, Seq::empty())
        } else {
            words_from(line, i + 1, cur.push(line[i]))
        },
{
}

/// Splits an inline command line into its words.
fn split_words(line: &[u8]) -> (args: Vec<Vec<u8>>)
    ensures
        byte_strings(args@) == words(line@),
{
    let mut args: Vec<Vec<u8>> = Vec::new();
    let mut cur: Vec<u8> = Vec::new();
    let mut i: usize = 0;
    while i < line.len()
        invariant
            i <= line@.len(),
            byte_strings(args@) + words_from(line@, i as int, cur@) == words(line@),
        decreases line@.len() - i,
    {
        let ghost before = byte_strings(args@);
        proof { lemma_words_step(line@, i as int, cur@); }
        if line[i] == 32u8 {
            if cur.len() > 0 {
                let ghost c = cur@;
                args.push(cur);
                cur = Vec::new();
                proof {
                    assert(byte_strings(args@) =~= before + seq![c]);
                    assert(cur@ =~= Seq::<u8>::empty());
                }
            } else {
                proof { assert(cur@ =~= Seq::<u8>::empty()); }
            }
        } else {
            cur.push(line[i]);
        }
        i = i + 1;
        proof {
            assert(byte_strings(args@) + words_from(line@, i as int, cur@) =~= words(line@));
        }
    }
    let ghost before = byte_strings(args@);
    if cur.len() > 0 {
        let ghost c = cur@;
        args.push(cur);
        proof { assert(byte_strings(args@) =~= before + seq![c]); }
    }
    proof { assert(byte_strings(args@) =~= words(line@)); }
    args
}

/// Pulls one command off the front of `buf`: `Ok(None)` means more bytes are needed; the
/// arguments come with how many bytes they used.
pub fn parse_command(buf: &[u8]) -> (r: Result<Option<(Vec<Vec<u8>>, usize)>, String>)
    ensures
        frame_of(r) == command_frame(buf@),
{
    if buf.len() == 0 {
        return Ok(None);
    }
    if buf[0] != 42u8 {
        match read_line(buf, 0) {
            None => {
                return Ok(None);
            },
            Some((end, next)) => {
                let args = split_words(vstd::slice::slice_subrange(buf, 0, end));
                return Ok(Some((args, next)));
            },
        }
    }
    let (hend, first) = match read_line(buf, 0) {
        None => {
            return Ok(None);
        },
        Some(p) => p,
    };
    proof {
        assert(hend >= 1);
        assert(buf@.subrange(0, hend as int).drop_first() =~= buf@.subrange(1, hend as int));
    }
    let count = match parse_int(vstd::slice::slice_subrange(buf, 1, hend)) {
        None => {
            return Err(String::from_str("bad multibulk length"));
        },
        Some(c) => c,
    };
    let total: i64 = if count < 0 { 0 } else { count };
    let mut args: Vec<Vec<u8>> = Vec::new();
    let mut pos: usize = first;
    let mut k: i64 = 0;
    while k < total
        invariant
            0 <= k <= total,
            pos <= buf@.len(),
            command_frame(buf@) == after(byte_strings(args@), bulk_items(buf@, pos as int, (total - k) as nat)),
        decreases total - k,
    {
        if pos >= buf.len() {
            return Ok(None);
        }
        if buf[pos] != 36u8 {
            return Err(String::from_str("expected a bulk string"));
        }
        let (bend, next) = match read_line(buf, pos) {
            None => {
                return Ok(None);
            },
            Some(p) => p,
        };
        proof {
            assert(bend >= pos + 1);
            assert(buf@.subrange(pos as int, bend as int).drop_first() =~= buf@.subrange(pos + 1, bend as int));
        }
        let len = match parse_len(vstd::slice::slice_subrange(buf, pos + 1, bend)) {
            None => {
                return Err(String::from_str("bad bulk length"));
            },
            Some(n) => n,
        };
        if len > buf.len() - next || buf.len() - next - len < 2 {
            return Ok(None);
        }
        let item = copy_bytes(vstd::slice::slice_subrange(buf, next, next + len));
        let ghost pre = byte_strings(args@);
        let ghost rest = bulk_items(buf@, (next + len + 2) as int, (total - k - 1) as nat);
        args.push(item);
        pos = next + len + 2;
        k = k + 1;
        proof {
            assert(byte_strings(args@) =~= pre + seq![buf@.subrange(next as int, next + len)]);
            assert(after(pre, after(seq![buf@.subrange(next as int, next + len)], rest)) == after(byte_strings(args@), rest)) by {
                match rest {
                    Ok(Some((r, e))) => {
                        assert(pre + (seq![buf@.subrange(next as int, next + len)] + r) =~= byte_strings(args@) + r);
                    },
                    _ => {},
                }
            }
        }
    }
    proof {
        assert(byte_strings(args@) + Seq::<Seq<u8>>::empty() =~= byte_strings(args@));
    }
    Ok(Some((args, pos)))
}

}
