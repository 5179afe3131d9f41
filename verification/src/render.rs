use vstd::prelude::*;
use vstd::utf8::*;
use vstd::string::StringSliceAdditionalSpecFns;
use crate::resp::{Reply, Value};
use crate::text::{decimal_text, i64_text, u64_text, lemma_usize_text_round_trip, lemma_ascii_valid_utf8, lemma_i64_text_round_trip, lossy_text, utf8_lossy, utf8_str};

verus! {

/// What kind of reply a shown line comes from, which decides how it is coloured.
#[derive(Clone, Copy, PartialEq, Eq, Structural, Debug)]
pub enum LineKind {
    /// A status reply.
    Status,
    /// An error reply.
    Failure,
    /// An integer reply.
    Integer,
    /// A bulk string.
    Text,
    /// A null reply or an empty array.
    Nothing,
}

/// One line of a reply shown the way `redis-cli` shows it: the item numbers in front of it,
/// outermost first, and its text.
pub struct ShownLine {
    pub marks: Vec<usize>,
    pub kind: LineKind,
    pub text: String,
}

/// A shown line as plain values.
pub struct LineView {
    pub marks: Seq<usize>,
    pub kind: LineKind,
    pub text: Seq<char>,
}

impl View for ShownLine {
    type V = LineView;

    open spec fn view(&self) -> LineView {
        LineView { marks: self.marks@, kind: self.kind, text: self.text@ }
    }
}

/// The views of a sequence of shown lines.
pub open spec fn line_views(ls: Seq<ShownLine>) -> Seq<LineView> {
    ls.map_values(|l: ShownLine| l@)
}

/// The decimal text of `n` as characters.
pub open spec fn decimal_chars(n: int) -> Seq<char> {
    decode_utf8(decimal_text(n))
}

/// A one-line rendering.
pub open spec fn one(kind: LineKind, text: Seq<char>) -> Seq<LineView> {
    seq![LineView { marks: Seq::empty(), kind, text }]
}

/// `ls` with the item number `k` put in front of its first line.
pub open spec fn numbered(k: usize, ls: Seq<LineView>) -> Seq<LineView> {
    if ls.len() == 0 {
        ls
    } else {
        ls.update(0, LineView { marks: seq![k] + ls[0].marks, ..ls[0] })
    }
}

/// How a reply is shown: one line for each plain reply; for an array, the lines of each item in
/// turn, the first line of item `i` numbered `i + 1`.
pub open spec fn shown(r: Reply) -> Seq<LineView>
    decreases r, 0nat,
{
    match r {
        Reply::Simple(s) => one(LineKind::Status, s),
        Reply::Error(s) => one(LineKind::Failure, "(error) "@ + s),
        Reply::Int(n) => one(LineKind::Integer, "(integer) "@ + decimal_chars(n)),
        Reply::Bulk(b) => one(LineKind::Text, "\""@ + lossy_text(b) + "\""@),
        Reply::Null => one(LineKind::Nothing, "(nil)"@),
        Reply::Array(a) => if a.len() == 0 {
            one(LineKind::Nothing, "(empty array)"@)
        } else {
            shown_items(a, a.len())
        },
    }
}

/// The lines of the first `n` items of an array.
pub open spec fn shown_items(a: Seq<Reply>, n: nat) -> Seq<LineView>
    decreases a, n,
{
    if n == 0 || n > a.len() {
        Seq::empty()
    } else {
        shown_items(a, (n - 1) as nat) + numbered(n as usize, shown(a[n - 1]))
    }
}

fn line_of(kind: LineKind, text: String) -> (l: Vec<ShownLine>)
    ensures
        line_views(l@) == one(kind, text@),
{
    let l = vec![ShownLine { marks: Vec::new(), kind, text }];
    proof {
        assert(line_views(l@) =~= one(kind, text@));
    }
    l
}

/// The decimal text of `n` as a string.
fn decimal_string(n: i64) -> (s: String)
    ensures
        s@ == decimal_chars(n as int),
{
    let b = i64_text(n);
    proof {
        lemma_i64_text_round_trip(n);
        lemma_ascii_valid_utf8(b@);
    }
    match utf8_str(b.as_slice()) {
        Some(t) => {
            proof {
                encode_utf8_decode_utf8(t@);
            }
            t.to_string()
        },
        None => String::new(),
    }
}

/// Shows a reply as lines of text, as an interactive client prints it.
pub fn show(v: &Value) -> (lines: Vec<ShownLine>)
    ensures
        line_views(lines@) == shown(v@),
    decreases v,
{
    match v {
        Value::Simple(s) => line_of(LineKind::Status, s.clone()),
        Value::Error(s) => {
            let mut t = String::from_str("(error) ");
            t.append(s.as_str());
            line_of(LineKind::Failure, t)
        },
        Value::Int(n) => {
            let mut t = String::from_str("(integer) ");
            let d = decimal_string(*n);
            t.append(d.as_str());
            line_of(LineKind::Integer, t)
        },
        Value::Bulk(b) => {
            let mut t = String::from_str("\"");
            let body = utf8_lossy(b.as_slice());
            t.append(body.as_str());
            t.append("\"");
            line_of(LineKind::Text, t)
        },
        Value::Null => line_of(LineKind::Nothing, String::from_str("(nil)")),
        Value::Array(a) => {
            if a.len() == 0 {
                return line_of(LineKind::Nothing, String::from_str("(empty array)"));
            }
            let ghost items = Seq::new(a@.len(), |i: int| if 0 <= i < a@.len() { a@[i].view() } else { Reply::Null });
            let mut out: Vec<ShownLine> = Vec::new();
            let mut i: usize = 0;
            while i < a.len()
                invariant
                    i <= a@.len(),
                    *v == Value::Array(*a),
                    items.len() == a@.len(),
                    forall|j: int| 0 <= j < a@.len() ==> #[trigger] items[j] == a@[j]@,
                    line_views(out@) == shown_items(items, i as nat),
                decreases a@.len() - i,
            {
                proof {
                    assert(decreases_to!(*v => v->Array_0));
                    assert(decreases_to!(*a => a@));
                    assert(decreases_to!(a@ => a@[i as int]));
                }
                let mut lines = show(&a[i]);
                let ghost before = line_views(out@);
                let ghost item = line_views(lines@);
                proof {
                    assert(items[i as int] == a@[i as int]@);
                }
                if lines.len() > 0 {
                    let mut first = lines.remove(0);
                    let ghost rest = line_views(lines@);
                    proof {
                        assert(rest =~= item.drop_first());
                        assert(first@ == item[0]);
                    }
                    let mut marks: Vec<usize> = Vec::new();
                    marks.push(i + 1);
                    let mut j: usize = 0;
                    while j < first.marks.len()
                        invariant
                            j <= first.marks@.len(),
                            marks@ == seq![(i + 1) as usize] + first.marks@.subrange(0, j as int),
                        decreases first.marks@.len() - j,
                    {
                        marks.push(first.marks[j]);
                        j = j + 1;
                        proof {
                            assert(marks@ =~= seq![(i + 1) as usize] + first.marks@.subrange(0, j as int));
                        }
                    }
                    proof {
                        assert(first.marks@.subrange(0, j as int) =~= first.marks@);
                    }
                    let ghost old_first = first@;
                    first.marks = marks;
                    out.push(first);
                    out.append(&mut lines);
                    proof {
                        assert(line_views(out@) =~= before + numbered((i + 1) as usize, item));
                    }
                }
                i = i + 1;
                proof {
                    assert(line_views(out@) == shown_items(items, i as nat));
                }
            }
            proof {
                let r = v@;
                assert(r matches Reply::Array(s) && s =~= items);
            }
            out
        },
    }
}

/// The text of one shown line: `k) ` for each item number, then the line's own text.
pub open spec fn line_text(l: LineView) -> Seq<char> {
    marks_text(l.marks, l.marks.len()) + l.text
}

/// `k) ` for each of the first `n` item numbers.
pub open spec fn marks_text(marks: Seq<usize>, n: nat) -> Seq<char>
    decreases n,
{
    if n == 0 || n > marks.len() {
        Seq::empty()
    } else {
        marks_text(marks, (n - 1) as nat) + decimal_chars(marks[n - 1] as int) + ") "@
    }
}

/// The first `n` shown lines as text, one after another, a line feed between two.
pub open spec fn plain_lines(ls: Seq<LineView>, n: nat) -> Seq<char>
    decreases n,
{
    if n == 0 || n > ls.len() {
        Seq::empty()
    } else if n == 1 {
        line_text(ls[0])
    } else {
        plain_lines(ls, (n - 1) as nat) + "\n"@ + line_text(ls[n - 1])
    }
}

/// The decimal text of a count as a string.
fn count_string(n: usize) -> (s: String)
    ensures
        s@ == decimal_chars(n as int),
{
    let b = u64_text(n as u64);
    proof {
        lemma_usize_text_round_trip(n);
        lemma_ascii_valid_utf8(b@);
    }
    match utf8_str(b.as_slice()) {
        Some(t) => {
            proof {
                encode_utf8_decode_utf8(t@);
            }
            t.to_string()
        },
        None => String::new(),
    }
}

/// Shown lines as one text: each line's item numbers as `k) ` before its text, a line feed
/// between two lines.
pub fn plain_text(lines: &[ShownLine]) -> (s: String)
    ensures
        s@ == plain_lines(line_views(lines@), lines@.len()),
{
    let mut s = String::new();
    let mut i: usize = 0;
    while i < lines.len()
        invariant
            i <= lines@.len(),
            s@ == plain_lines(line_views(lines@), i as nat),
        decreases lines@.len() - i,
    {
        if i > 0 {
            s.append("\n");
        }
        let l = &lines[i];
        let ghost lv = line_views(lines@)[i as int];
        proof {
            assert(lv == l@);
        }
        let mut j: usize = 0;
        let ghost start = s@;
        while j < l.marks.len()
            invariant
                j <= l.marks@.len(),
                s@ == start + marks_text(l.marks@, j as nat),
            decreases l.marks@.len() - j,
        {
            let d = count_string(l.marks[j]);
            s.append(d.as_str());
            s.append(") ");
            j = j + 1;
            proof {
                assert(s@ =~= start + marks_text(l.marks@, j as nat));
            }
        }
        s.append(l.text.as_str());
        i = i + 1;
        proof {
            assert(s@ =~= plain_lines(line_views(lines@), i as nat));
        }
    }
    s
}

proof fn lemma_items_numbered(a: Seq<Reply>, n: nat)
    requires
        n <= a.len(),
        a.len() <= usize::MAX,
        forall|i: int| 0 <= i < a.len() ==> (!(#[trigger] a[i] is Array)),
    ensures
        shown_items(a, n).len() == n,
        forall|i: int| #![trigger shown_items(a, n)[i]] 0 <= i < n ==> {
            &&& shown_items(a, n)[i].marks == seq![(i + 1) as usize]
            &&& shown_items(a, n)[i].kind == shown(a[i])[0].kind
            &&& shown_items(a, n)[i].text == shown(a[i])[0].text
        },
    decreases n,
{
    if n > 0 {
        lemma_items_numbered(a, (n - 1) as nat);
        let x = a[n - 1];
        assert(shown(x).len() == 1);
        assert(shown(x)[0].marks == Seq::<usize>::empty());
        assert(seq![n as usize] + Seq::<usize>::empty() =~= seq![n as usize]);
        let prev = shown_items(a, (n - 1) as nat);
        let last = numbered(n as usize, shown(x));
        assert(shown_items(a, n) == prev + last);
        assert(last.len() == 1);
        assert(last[0].marks =~= seq![n as usize]);
        assert(last[0].kind == shown(x)[0].kind && last[0].text == shown(x)[0].text);
        assert forall|i: int| #![trigger shown_items(a, n)[i]] 0 <= i < n implies {
            &&& shown_items(a, n)[i].marks == seq![(i + 1) as usize]
            &&& shown_items(a, n)[i].kind == shown(a[i])[0].kind
            &&& shown_items(a, n)[i].text == shown(a[i])[0].text
        } by {
            if i < n - 1 {
                assert(shown_items(a, n)[i] == prev[i]);
                assert(prev[i].marks == seq![(i + 1) as usize]);
                assert(prev[i].kind == shown(a[i])[0].kind);
            } else {
                assert(i == n - 1);
                assert(a[i] == x);
                assert(shown_items(a, n)[i] == last[0]);
                assert((i + 1) as usize == n as usize);
            }
        }
    }
}

/// An array of plain replies shows as one line per item, in order, the line of item `i`
/// numbered `i + 1` and otherwise shown as the item alone is.
pub proof fn law_array_lines_numbered(a: Seq<Reply>)
    requires
        1 <= a.len() <= usize::MAX,
        forall|i: int| 0 <= i < a.len() ==> (!(#[trigger] a[i] is Array)),
    ensures
        shown(Reply::Array(a)).len() == a.len(),
        forall|i: int| 0 <= i < a.len() ==> {
            &&& #[trigger] shown(Reply::Array(a))[i].marks == seq![(i + 1) as usize]
            &&& shown(Reply::Array(a))[i].kind == shown(a[i])[0].kind
            &&& shown(Reply::Array(a))[i].text == shown(a[i])[0].text
        },
{
    lemma_items_numbered(a, a.len());
}

} // verus!
