use vstd::prelude::*;
use vstd::utf8::encode_utf8;
use vstd::string::StringSliceAdditionalSpecFns;
use crate::commands::try_dispatch;
use crate::render::{ShownLine, line_views, show, shown};
use crate::resp::{Reply, byte_strings, copy_bytes};
use crate::semantics::{command_name, completes, outcome};
use crate::store::Store;

verus! {

/// True for the characters Unicode calls white space, which `char::is_whitespace` accepts.
pub open spec fn is_white(c: char) -> bool {
    let u = c as u32;
    (9 <= u <= 13) || u == 32 || u == 0x85 || u == 0xA0 || u == 0x1680 || (0x2000 <= u <= 0x200A)
        || u == 0x2028 || u == 0x2029 || u == 0x202F || u == 0x205F || u == 0x3000
}

/// The runs of characters of `s` between white space, from position `i` on, where `cur` is
/// the part of a run read before `i`.
pub open spec fn white_words_from(s: Seq<char>, i: int, cur: Seq<char>) -> Seq<Seq<char>>
    decreases s.len() - i,
{
    if i < 0 || i >= s.len() {
        if cur.len() > 0 { seq![cur] } else { Seq::empty() }
    } else if is_white(s[i]) {
        (if cur.len() > 0 { seq![cur] } else { Seq::empty() }) + white_words_from(s, i + 1, Seq::empty())
    } else {
        white_words_from(s, i + 1, cur.push(s[i]))
    }
}

/// The arguments a typed line gives: its runs of characters between white space, as bytes.
pub open spec fn line_args(s: Seq<char>) -> Seq<Seq<u8>> {
    white_words(s).map_values(|w: Seq<char>| encode_utf8(w))
}

/// The runs of characters of `s` between white space, in order.
pub open spec fn white_words(s: Seq<char>) -> Seq<Seq<char>> {
    white_words_from(s, 0, Seq::empty())
}

/// Wraps `str::split_whitespace`, its pieces collected in order: the runs of characters
/// between Unicode white space, as the standard library documents it.
#[verifier::external_body]
fn split_whitespace<'a>(line: &'a str) -> (r: Vec<&'a str>)
    ensures
        r@.map_values(|w: &str| w@) == white_words(line@),
{
    line.split_whitespace().collect()
}

/// The words of a typed line, as bytes.
fn line_words(line: &str) -> (args: Vec<Vec<u8>>)
    ensures
        byte_strings(args@) == line_args(line@),
{
    let words = split_whitespace(line);
    let ghost ws = white_words(line@);
    proof {
        assert(words@.len() == ws.len() && forall|i: int| 0 <= i < ws.len() ==> #[trigger] words@[i]@ == ws[i]) by {
            assert forall|i: int| 0 <= i < ws.len() implies #[trigger] words@[i]@ == ws[i] by {
                assert(words@.map_values(|w: &str| w@)[i] == words@[i]@);
            }
        }
    }
    let mut args: Vec<Vec<u8>> = Vec::new();
    let mut i: usize = 0;
    while i < words.len()
        invariant
            i <= words@.len(),
            words@.len() == ws.len(),
            forall|j: int| 0 <= j < ws.len() ==> #[trigger] words@[j]@ == ws[j],
            ws == white_words(line@),
            byte_strings(args@) == line_args(line@).subrange(0, i as int),
        decreases words@.len() - i,
    {
        let w: &str = words[i];
        let b = copy_bytes(w.as_bytes());
        proof {
            assert(b@ == w.spec_bytes());
            assert(b@ == encode_utf8(ws[i as int]));
            assert(line_args(line@)[i as int] == encode_utf8(ws[i as int]));
        }
        let ghost before = byte_strings(args@);
        args.push(b);
        i = i + 1;
        proof {
            assert(byte_strings(args@) =~= before.push(b@));
            assert(byte_strings(args@) =~= line_args(line@).subrange(0, i as int));
        }
    }
    proof {
        assert(line_args(line@).subrange(0, i as int) =~= line_args(line@));
    }
    args
}

/// Runs a typed line as a command at time `now` and gives the lines that show its reply: none
/// for a line with no words. `None` where the command would stop (see `try_dispatch`), with
/// the keyspace left as it was.
pub fn exec_line(store: &mut Store, line: &str, now: u64) -> (r: Option<Vec<ShownLine>>)
    ensures
        line_args(line@).len() == 0 ==> final(store)@ == old(store)@ && (r matches Some(ls) && ls@.len() == 0),
        line_args(line@).len() > 0 ==> (r is Some <==> completes(old(store)@, command_name(line_args(line@)[0]), line_args(line@), now)),
        line_args(line@).len() > 0 && r is None ==> final(store)@ == old(store)@,
        line_args(line@).len() > 0 && r is Some ==> exists|reply: Reply|
            #[trigger] outcome(old(store)@, command_name(line_args(line@)[0]), line_args(line@), now, final(store)@, reply)
            && line_views(r->0@) == shown(reply),
{
    let args = line_words(line);
    if args.len() == 0 {
        return Some(Vec::new());
    }
    proof {
        assert(byte_strings(args@)[0] == args@[0]@);
    }
    match try_dispatch(store, args.as_slice(), now) {
        None => None,
        Some(reply) => {
            let lines = show(&reply);
            proof {
                assert(outcome(old(store)@, command_name(line_args(line@)[0]), line_args(line@), now, final(store)@, reply@));
            }
            Some(lines)
        },
    }
}

/// A key pressed at the interactive prompt.
pub enum Key {
    Char(char),
    Backspace,
    Enter,
    Esc,
    Other,
}

/// What the prompt does after a key.
#[derive(Clone, Copy, PartialEq, Eq, Structural, Debug)]
pub enum KeyAction {
    /// Keep reading keys.
    Stay,
    /// Run the line typed so far.
    RunLine,
    /// Leave the prompt.
    Quit,
}

/// Handles one key at the prompt: a character is typed at the end of the line, Backspace
/// takes the last one back, Enter asks for the line to be run, Esc to leave; other keys do
/// nothing.
pub fn on_key(input: &mut Vec<char>, key: Key) -> (a: KeyAction)
    ensures
        match key {
            Key::Char(c) => final(input)@ == old(input)@.push(c) && a == KeyAction::Stay,
            Key::Backspace => a == KeyAction::Stay && final(input)@ == if old(input)@.len() > 0 {
                old(input)@.drop_last()
            } else {
                old(input)@
            },
            Key::Enter => final(input)@ == old(input)@ && a == KeyAction::RunLine,
            Key::Esc => final(input)@ == old(input)@ && a == KeyAction::Quit,
            Key::Other => final(input)@ == old(input)@ && a == KeyAction::Stay,
        },
{
    match key {
        Key::Char(c) => {
            input.push(c);
            KeyAction::Stay
        },
        Key::Backspace => {
            input.pop();
            KeyAction::Stay
        },
        Key::Enter => KeyAction::RunLine,
        Key::Esc => KeyAction::Quit,
        Key::Other => KeyAction::Stay,
    }
}

/// Keeps only the last `n` items of `v`, dropping the oldest.
pub fn keep_last<T>(v: &mut Vec<T>, n: usize)
    ensures
        final(v)@ == if old(v)@.len() > n {
            old(v)@.subrange(old(v)@.len() - n, old(v)@.len() as int)
        } else {
            old(v)@
        },
{
    if v.len() > n {
        let at = v.len() - n;
        let tail = v.split_off(at);
        *v = tail;
    }
}

} // verus!
