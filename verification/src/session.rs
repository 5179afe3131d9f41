use vstd::prelude::*;
use crate::commands::try_dispatch;
use crate::laws::{law_command_round_trip, law_frame_decided_by_used, law_frame_progress, law_prefix_waits};
use crate::resp::{Frame, Reply, Value, byte_strings, command_frame, encode, parse_command, reply_bytes};
use crate::semantics::{bulks, command_name, completes, outcome};
use crate::store::{Keyspace, Store};

verus! {

/// What a connection does next with the bytes it has read so far.
pub enum Step {
    /// A whole command was read and run: drop the first `used` bytes, send `out`, and close the
    /// connection after sending when `quit` is set.
    Answer { used: usize, out: Vec<u8>, quit: bool },
    /// A command of no words: drop the first `used` bytes.
    Skip { used: usize },
    /// No whole command yet: read more bytes.
    Wait,
    /// A malformed frame: send `out` and drop everything read so far.
    Reject { out: Vec<u8> },
}

/// A step as plain values.
pub enum StepView {
    Answer(int, Seq<u8>, bool),
    Skip(int),
    Wait,
    Reject(Seq<u8>),
}

impl View for Step {
    type V = StepView;

    open spec fn view(&self) -> StepView {
        match self {
            Step::Answer { used, out, quit } => StepView::Answer(*used as int, out@, *quit),
            Step::Skip { used } => StepView::Skip(*used as int),
            Step::Wait => StepView::Wait,
            Step::Reject { out } => StepView::Reject(out@),
        }
    }
}

/// A byte with ASCII capitals made small.
pub open spec fn ascii_lower(b: u8) -> u8 {
    if 65 <= b <= 90 { (b + 32) as u8 } else { b }
}

/// True when `w` spells `quit` in any mix of upper and lower case.
pub open spec fn is_quit_word(w: Seq<u8>) -> bool {
    let q = seq![113u8, 117u8, 105u8, 116u8];
    w.len() == 4 && forall|i: int| 0 <= i < 4 ==> #[trigger] ascii_lower(w[i]) == q[i]
}

/// Whether `w` is the word `quit`, ignoring ASCII case.
fn is_quit(w: &[u8]) -> (b: bool)
    ensures
        b == is_quit_word(w@),
{
    if w.len() != 4 {
        return false;
    }
    let q: [u8; 4] = [113u8, 117u8, 105u8, 116u8];
    let mut i: usize = 0;
    while i < 4
        invariant
            w@.len() == 4,
            i <= 4,
            q@ == seq![113u8, 117u8, 105u8, 116u8],
            forall|j: int| 0 <= j < i ==> #[trigger] ascii_lower(w@[j]) == q@[j],
        decreases 4 - i,
    {
        let b = w[i];
        let low = if 65u8 <= b && b <= 90u8 { b + 32 } else { b };
        if low != q[i] {
            proof {
                assert(low == ascii_lower(w@[i as int]));
                assert(!is_quit_word(w@));
            }
            return false;
        }
        i = i + 1;
    }
    proof {
        assert(q@ == seq![113u8, 117u8, 105u8, 116u8]);
    }
    true
}

/// What one step leaves in the keyspace and does, at time `now`, on bytes whose front reads as
/// `frame`: `None` where the command would stop.
pub open spec fn step_spec(frame: Frame, before: Keyspace, after: Keyspace, now: u64, r: Option<StepView>) -> bool {
    match frame {
        Ok(None) => after == before && r == Some(StepView::Wait),
        Err(e) => after == before && r == Some(StepView::Reject(reply_bytes(Reply::Error("ERR "@ + e)))),
        Ok(Some((args, used))) => if args.len() == 0 {
            after == before && r == Some(StepView::Skip(used))
        } else if completes(before, command_name(args[0]), args, now) {
            exists|reply: Reply| #[trigger] outcome(before, command_name(args[0]), args, now, after, reply)
                && r == Some(StepView::Answer(used, reply_bytes(reply), is_quit_word(args[0])))
        } else {
            after == before && r is None
        },
    }
}

/// One step of a connection: reads the command at the front of `buf`, runs it on the keyspace
/// at time `now`, and says what to send and how many bytes to drop. `None` where the command
/// would stop (see `try_dispatch`), with the keyspace left as it was.
pub fn serve_step(store: &mut Store, buf: &[u8], now: u64) -> (r: Option<Step>)
    ensures
        step_spec(command_frame(buf@), old(store)@, final(store)@, now, match r {
            Some(s) => Some(s@),
            None => None,
        }),
        r matches Some(Step::Answer { used, .. }) ==> 1 <= used <= buf@.len(),
        r matches Some(Step::Skip { used }) ==> 1 <= used <= buf@.len(),
{
    proof {
        law_frame_progress(buf@);
    }
    let parsed = parse_command(buf);
    match parsed {
        Ok(None) => {
            proof {
                assert(command_frame(buf@) == Ok::<Option<(Seq<Seq<u8>>, int)>, Seq<char>>(None));
            }
            Some(Step::Wait)
        },
        Err(e) => {
            let mut msg = String::from_str("ERR ");
            msg.append(e.as_str());
            let mut out: Vec<u8> = Vec::new();
            let v = Value::Error(msg);
            encode(&v, &mut out);
            proof {
                assert(v@ == Reply::Error("ERR "@ + e@));
                assert(command_frame(buf@) == Err::<Option<(Seq<Seq<u8>>, int)>, Seq<char>>(e@));
            }
            Some(Step::Reject { out })
        },
        Ok(Some((args, used))) => {
            if args.len() == 0 {
                return Some(Step::Skip { used });
            }
            proof {
                assert(byte_strings(args@)[0] == args@[0]@);
            }
            let quit = is_quit(args[0].as_slice());
            proof {
                assert(command_frame(buf@) == Ok::<Option<(Seq<Seq<u8>>, int)>, Seq<char>>(Some((byte_strings(args@), used as int))));
            }
            match try_dispatch(store, args.as_slice(), now) {
                None => None,
                Some(reply) => {
                    let mut out: Vec<u8> = Vec::new();
                    encode(&reply, &mut out);
                    proof {
                        assert(out@ == reply_bytes(reply@));
                        assert(command_frame(buf@) == Ok::<Option<(Seq<Seq<u8>>, int)>, Seq<char>>(Some((byte_strings(args@), used as int))));
                        assert(outcome(old(store)@, command_name(byte_strings(args@)[0]), byte_strings(args@), now, final(store)@, reply@));
                    }
                    Some(Step::Answer { used, out, quit })
                },
            }
        },
    }
}

/// A connection that has received a command encoded as a RESP array of bulk strings, followed
/// by anything, runs that command, answers with the reply's bytes and drops exactly the bytes
/// of the command.
pub proof fn law_step_on_encoded_command(
    args: Seq<Seq<u8>>, rest: Seq<u8>, before: Keyspace, after: Keyspace, now: u64, r: Option<StepView>,
)
    requires
        1 <= args.len() <= i64::MAX,
        forall|i: int| 0 <= i < args.len() ==> #[trigger] args[i].len() <= usize::MAX,
        completes(before, command_name(args[0]), args, now),
        step_spec(command_frame(reply_bytes(Reply::Array(bulks(args))) + rest), before, after, now, r),
    ensures
        exists|reply: Reply| #[trigger] outcome(before, command_name(args[0]), args, now, after, reply)
            && r == Some(StepView::Answer(
                reply_bytes(Reply::Array(bulks(args))).len() as int,
                reply_bytes(reply),
                is_quit_word(args[0]),
            )),
{
    law_command_round_trip(args, rest);
}

/// True when `c` is one whole frame: it reads as a command that uses all of it.
pub open spec fn whole_frame(c: Seq<u8>) -> bool {
    command_frame(c) matches Ok(Some((_, used))) && used == c.len()
}

/// The arguments a whole frame reads as.
pub open spec fn frame_args(c: Seq<u8>) -> Seq<Seq<u8>> {
    match command_frame(c) {
        Ok(Some((args, _))) => args,
        _ => Seq::empty(),
    }
}

/// The frames from `cs[i]` on, one after another.
pub open spec fn joined(cs: Seq<Seq<u8>>, i: int) -> Seq<u8>
    decreases cs.len() - i,
{
    if i < 0 || i >= cs.len() { Seq::empty() } else { cs[i] + joined(cs, i + 1) }
}

/// What the bytes a step sends are, as plain bytes: none for a step that sends nothing.
pub open spec fn sent(r: Option<StepView>) -> Seq<u8> {
    match r {
        Some(StepView::Answer(_, out, _)) => out,
        Some(StepView::Reject(out)) => out,
        _ => Seq::empty(),
    }
}

/// The whole frame `c`, run on `before` at time `t`, leaves `after` and sends `out`: nothing for
/// a frame of no words, else the bytes of the command's reply.
pub open spec fn frame_served(c: Seq<u8>, before: Keyspace, after: Keyspace, t: u64, out: Seq<u8>) -> bool {
    let args = frame_args(c);
    if args.len() == 0 {
        after == before && out == Seq::<u8>::empty()
    } else {
        exists|reply: Reply| #[trigger] outcome(before, command_name(args[0]), args, t, after, reply)
            && out == reply_bytes(reply)
    }
}

/// A step on a whole frame followed by anything acts as on the frame alone, and uses exactly
/// the frame's bytes.
pub proof fn law_step_on_frame(c: Seq<u8>, rest: Seq<u8>, before: Keyspace, after: Keyspace, now: u64, r: Option<StepView>)
    requires
        whole_frame(c),
    ensures
        step_spec(command_frame(c + rest), before, after, now, r) == step_spec(command_frame(c), before, after, now, r),
        step_spec(command_frame(c), before, after, now, r) ==> match r {
            Some(StepView::Answer(used, _, _)) => used == c.len(),
            Some(StepView::Skip(used)) => used == c.len(),
            Some(StepView::Wait) => false,
            Some(StepView::Reject(_)) => false,
            None => true,
        },
{
    law_frame_decided_by_used(c, rest);
    assert(c.subrange(0, c.len() as int) =~= c);
}

/// A step on a whole frame cut short waits for more bytes and leaves the keyspace as it is.
pub proof fn law_step_waits_on_prefix(c: Seq<u8>, k: int, before: Keyspace, after: Keyspace, now: u64, r: Option<StepView>)
    requires
        whole_frame(c),
        0 <= k < c.len(),
        step_spec(command_frame(c.subrange(0, k)), before, after, now, r),
    ensures
        r == Some(StepView::Wait),
        after == before,
{
    law_prefix_waits(c, k);
}

/// A connection that has received whole frames `cs` one after another, followed by anything,
/// and has taken a step on what is left before each frame (at time `ts[i]`, from keyspace
/// `states[i]` to `states[i + 1]`) where every command completed, has answered frame by frame:
/// each step used exactly its frame's bytes, ran that frame's command and sent its reply.
pub proof fn law_connection_serves_frames(
    cs: Seq<Seq<u8>>, tail: Seq<u8>, ts: Seq<u64>, states: Seq<Keyspace>, rs: Seq<Option<StepView>>,
)
    requires
        ts.len() == cs.len(),
        states.len() == cs.len() + 1,
        rs.len() == cs.len(),
        forall|i: int| 0 <= i < cs.len() ==> #[trigger] whole_frame(cs[i]),
        forall|i: int| 0 <= i < cs.len() ==> #[trigger] rs[i] is Some,
        forall|i: int| 0 <= i < cs.len() ==> #[trigger] step_spec(command_frame(joined(cs, i) + tail), states[i], states[i + 1], ts[i], rs[i]),
    ensures
        forall|i: int| 0 <= i < cs.len() ==> #[trigger] frame_served(cs[i], states[i], states[i + 1], ts[i], sent(rs[i])),
        forall|i: int| 0 <= i < cs.len() ==> match #[trigger] rs[i] {
            Some(StepView::Answer(used, _, _)) => used == cs[i].len(),
            Some(StepView::Skip(used)) => used == cs[i].len(),
            _ => false,
        },
{
    assert forall|i: int| #![trigger rs[i]] #![trigger frame_served(cs[i], states[i], states[i + 1], ts[i], sent(rs[i]))]
        0 <= i < cs.len() implies frame_served(cs[i], states[i], states[i + 1], ts[i], sent(rs[i]))
        && match rs[i] {
            Some(StepView::Answer(used, _, _)) => used == cs[i].len(),
            Some(StepView::Skip(used)) => used == cs[i].len(),
            _ => false,
        } by {
        let rest = joined(cs, i + 1) + tail;
        assert(joined(cs, i) + tail =~= cs[i] + rest);
        assert(step_spec(command_frame(joined(cs, i) + tail), states[i], states[i + 1], ts[i], rs[i]));
        law_step_on_frame(cs[i], rest, states[i], states[i + 1], ts[i], rs[i]);
    }
}

} // verus!
