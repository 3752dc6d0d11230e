use vstd::prelude::*;
use vstd::string::*;
use crate::task::{Task, TaskView};

verus! {

/// The characters that count as whitespace when the file and each
/// task's text are trimmed: the Unicode `White_Space` set.
pub open spec fn is_wspace(c: char) -> bool {
    ||| c == ' '
    ||| c == '\t'
    ||| c == '\n'
    ||| c == '\u{000B}'
    ||| c == '\u{000C}'
    ||| c == '\r'
    ||| c == '\u{0085}'
    ||| c == '\u{00A0}'
    ||| c == '\u{1680}'
    ||| c == '\u{2000}'
    ||| c == '\u{2001}'
    ||| c == '\u{2002}'
    ||| c == '\u{2003}'
    ||| c == '\u{2004}'
    ||| c == '\u{2005}'
    ||| c == '\u{2006}'
    ||| c == '\u{2007}'
    ||| c == '\u{2008}'
    ||| c == '\u{2009}'
    ||| c == '\u{200A}'
    ||| c == '\u{2028}'
    ||| c == '\u{2029}'
    ||| c == '\u{202F}'
    ||| c == '\u{205F}'
    ||| c == '\u{3000}'
}

/// Whether `c` is one of the characters that trimming removes.
fn is_wspace_char(c: char) -> (b: bool)
    ensures
        b == is_wspace(c),
{
    c == ' ' || c == '\t' || c == '\n' || c == '\u{000B}' || c == '\u{000C}' || c == '\r'
        || c == '\u{0085}' || c == '\u{00A0}' || c == '\u{1680}' || c == '\u{2000}'
        || c == '\u{2001}' || c == '\u{2002}' || c == '\u{2003}' || c == '\u{2004}'
        || c == '\u{2005}' || c == '\u{2006}' || c == '\u{2007}' || c == '\u{2008}'
        || c == '\u{2009}' || c == '\u{200A}' || c == '\u{2028}' || c == '\u{2029}'
        || c == '\u{202F}' || c == '\u{205F}' || c == '\u{3000}'
}

/// `s` without its leading whitespace.
pub open spec fn trim_start_spec(s: Seq<char>) -> Seq<char>
    decreases s.len(),
{
    if s.len() > 0 && is_wspace(s[0]) {
        trim_start_spec(s.drop_first())
    } else {
        s
    }
}

/// `s` without its trailing whitespace.
pub open spec fn trim_end_spec(s: Seq<char>) -> Seq<char>
    decreases s.len(),
{
    if s.len() > 0 && is_wspace(s.last()) {
        trim_end_spec(s.drop_last())
    } else {
        s
    }
}

/// `s` without leading and trailing whitespace.
pub open spec fn trim_spec(s: Seq<char>) -> Seq<char> {
    trim_end_spec(trim_start_spec(s))
}

/// The index of the first newline in `s`, or `-1` when it has none.
pub open spec fn find_nl(s: Seq<char>) -> int
    decreases s.len(),
{
    if s.len() == 0 {
        -1
    } else if s[0] == '\n' {
        0
    } else if find_nl(s.drop_first()) < 0 {
        -1
    } else {
        find_nl(s.drop_first()) + 1
    }
}

proof fn lemma_find_nl_bounds(s: Seq<char>)
    ensures
        -1 <= find_nl(s) < s.len(),
    decreases s.len(),
{
    if s.len() > 0 && s[0] != '\n' {
        lemma_find_nl_bounds(s.drop_first());
    }
}

/// `s` cut at each newline, the way the decoder sees lines: an empty
/// text has no lines, and a final newline does not open one more.
pub open spec fn split_lines(s: Seq<char>) -> Seq<Seq<char>>
    decreases s.len(),
    via split_lines_decreases
{
    if s.len() == 0 {
        seq![]
    } else {
        let i = find_nl(s);
        if i < 0 {
            seq![s]
        } else {
            seq![s.subrange(0, i)] + split_lines(s.subrange(i + 1, s.len() as int))
        }
    }
}

#[via_fn]
proof fn split_lines_decreases(s: Seq<char>) {
    lemma_find_nl_bounds(s);
}

/// The status marker a task is written with.
pub open spec fn marker(completed: bool) -> char {
    if completed { 'x' } else { ' ' }
}

/// One task's line in the file, final newline included.
pub open spec fn encode_line(t: TaskView) -> Seq<char> {
    seq!['[', marker(t.completed), ']', ' '] + t.content + seq!['\n']
}

/// The whole file: every task's line, in order.
pub open spec fn encode_spec(ts: Seq<TaskView>) -> Seq<char>
    decreases ts.len(),
{
    if ts.len() == 0 {
        Seq::empty()
    } else {
        encode_line(ts[0]) + encode_spec(ts.drop_first())
    }
}

/// One line read back as a task: the character at offset 1 is the
/// completion marker, the text from offset 3 on, trimmed, is the
/// content. A line too short for those offsets cannot be read.
pub open spec fn parse_line(l: Seq<char>) -> Option<TaskView> {
    if l.len() < 3 {
        Option::None
    } else {
        Option::Some(TaskView {
            completed: l[1] == 'x',
            content: trim_spec(l.subrange(3, l.len() as int)),
        })
    }
}

/// Every line read back in order; one unreadable line fails the whole
/// sequence.
pub open spec fn parse_lines(ls: Seq<Seq<char>>) -> Option<Seq<TaskView>>
    decreases ls.len(),
{
    if ls.len() == 0 {
        Option::Some(seq![])
    } else {
        match parse_line(ls[0]) {
            Option::None => Option::None,
            Option::Some(t) => match parse_lines(ls.drop_first()) {
                Option::None => Option::None,
                Option::Some(ts) => Option::Some(seq![t] + ts),
            },
        }
    }
}

/// What decoding a whole file yields: the text is trimmed, cut into
/// lines, and each line read as a task.
pub open spec fn decode_spec(s: Seq<char>) -> Option<Seq<TaskView>> {
    parse_lines(split_lines(trim_spec(s)))
}

/// The values of a sequence of tasks.
pub open spec fn views(ts: Seq<Task>) -> Seq<TaskView> {
    ts.map_values(|t: Task| t@)
}

proof fn lemma_encode_snoc(ts: Seq<TaskView>, t: TaskView)
    ensures
        encode_spec(ts.push(t)) == encode_spec(ts) + encode_line(t),
    decreases ts.len(),
{
    if ts.len() == 0 {
        reveal_with_fuel(encode_spec, 2);
        assert(ts.push(t)[0] == t);
        assert(ts.push(t).drop_first() =~= Seq::<TaskView>::empty());
        assert(encode_spec(ts.push(t)) =~= encode_spec(ts) + encode_line(t));
    } else {
        assert(ts.push(t)[0] == ts[0]);
        assert(ts.push(t).drop_first() =~= ts.drop_first().push(t));
        lemma_encode_snoc(ts.drop_first(), t);
        assert(encode_spec(ts.push(t)) =~= encode_spec(ts) + encode_line(t));
    }
}

proof fn lemma_trim_start_at(s: Seq<char>, lo: int)
    requires
        0 <= lo <= s.len(),
        forall|j: int| 0 <= j < lo ==> is_wspace(s[j]),
        lo < s.len() ==> !is_wspace(s[lo]),
    ensures
        trim_start_spec(s) == s.subrange(lo, s.len() as int),
    decreases lo,
{
    if lo == 0 {
        assert(trim_start_spec(s) =~= s.subrange(0, s.len() as int));
    } else {
        let d = s.drop_first();
        assert(forall|j: int| 0 <= j < lo - 1 ==> is_wspace(#[trigger] d[j]));
        lemma_trim_start_at(d, lo - 1);
        assert(d.subrange(lo - 1, d.len() as int) =~= s.subrange(lo, s.len() as int));
    }
}

proof fn lemma_trim_end_at(s: Seq<char>, hi: int)
    requires
        0 <= hi <= s.len(),
        forall|j: int| hi <= j < s.len() ==> is_wspace(s[j]),
        hi > 0 ==> !is_wspace(s[hi - 1]),
    ensures
        trim_end_spec(s) == s.subrange(0, hi),
    decreases s.len(),
{
    if hi == s.len() {
        assert(trim_end_spec(s) =~= s.subrange(0, hi));
    } else {
        let d = s.drop_last();
        assert(forall|j: int| hi <= j < d.len() ==> is_wspace(#[trigger] d[j]));
        lemma_trim_end_at(d, hi);
        assert(d.subrange(0, hi) =~= s.subrange(0, hi));
    }
}

proof fn lemma_trim_bounds(s: Seq<char>, lo: int, hi: int)
    requires
        0 <= lo <= hi <= s.len(),
        forall|j: int| 0 <= j < lo ==> is_wspace(s[j]),
        forall|j: int| hi <= j < s.len() ==> is_wspace(s[j]),
        lo < s.len() ==> !is_wspace(s[lo]),
        lo < hi ==> !is_wspace(s[hi - 1]),
    ensures
        trim_spec(s) == s.subrange(lo, hi),
{
    lemma_trim_start_at(s, lo);
    let m = s.subrange(lo, s.len() as int);
    assert(forall|j: int| hi - lo <= j < m.len() ==> is_wspace(#[trigger] m[j]));
    lemma_trim_end_at(m, hi - lo);
    assert(m.subrange(0, hi - lo) =~= s.subrange(lo, hi));
}

proof fn lemma_find_nl_at(s: Seq<char>, k: int)
    requires
        0 <= k <= s.len(),
        forall|j: int| 0 <= j < k ==> s[j] != '\n',
        k < s.len() ==> s[k] == '\n',
    ensures
        find_nl(s) == if k < s.len() { k } else { -1 },
    decreases s.len(),
{
    if s.len() > 0 && k > 0 {
        let d = s.drop_first();
        assert(forall|j: int| 0 <= j < k - 1 ==> #[trigger] d[j] == s[j + 1]);
        lemma_find_nl_at(d, k - 1);
    }
}

proof fn lemma_split_lines_step(s: Seq<char>, k: int)
    requires
        0 <= k < s.len(),
        forall|j: int| 0 <= j < k ==> s[j] != '\n',
        s[k] == '\n',
    ensures
        split_lines(s) == seq![s.subrange(0, k)] + split_lines(
            s.subrange(k + 1, s.len() as int),
        ),
{
    lemma_find_nl_at(s, k);
}

proof fn lemma_split_lines_whole(s: Seq<char>)
    requires
        s.len() > 0,
        forall|j: int| 0 <= j < s.len() ==> s[j] != '\n',
    ensures
        split_lines(s) == seq![s],
{
    lemma_find_nl_at(s, s.len() as int);
}

proof fn lemma_parse_lines_cons(l: Seq<char>, rest: Seq<Seq<char>>)
    ensures
        parse_lines(seq![l] + rest) == match parse_line(l) {
            Option::None => Option::None,
            Option::Some(t) => match parse_lines(rest) {
                Option::None => Option::None,
                Option::Some(ts) => Option::Some(seq![t] + ts),
            },
        },
{
    let ls = seq![l] + rest;
    assert(ls[0] == l);
    assert(ls.drop_first() =~= rest);
}

/// Why a checklist text cannot be decoded.
#[derive(Debug, PartialEq, Eq)]
pub enum DecodeError {
    /// A line is too short to hold its status marker and the offset the
    /// content starts at.
    LineTooShort,
}

/// Read a whole checklist text: trim it, cut it into lines, and read
/// each line back as a task. One malformed line fails the whole load.
pub fn from_file(text: &str) -> (r: Result<Vec<Task>, DecodeError>)
    ensures
        match r {
            Ok(tasks) => decode_spec(text@) == Option::Some(views(tasks@)),
            Err(_) => decode_spec(text@) is None,
        },
{
    let n = text.unicode_len();
    let mut lo: usize = 0;
    while lo < n && is_wspace_char(text.get_char(lo))
        invariant
            0 <= lo <= n,
            n == text@.len(),
            forall|j: int| 0 <= j < lo ==> is_wspace(text@[j]),
        decreases n - lo,
    {
        lo += 1;
    }
    let mut hi: usize = n;
    while hi > lo && is_wspace_char(text.get_char(hi - 1))
        invariant
            lo <= hi <= n,
            n == text@.len(),
            forall|j: int| hi <= j < n ==> is_wspace(text@[j]),
        decreases hi,
    {
        hi -= 1;
    }
    proof {
        lemma_trim_bounds(text@, lo as int, hi as int);
    }
    let trimmed = text.substring_char(lo, hi);
    let m = hi - lo;
    let ghost s = trimmed@;
    let mut tasks: Vec<Task> = Vec::new();
    let mut i: usize = 0;
    proof {
        assert(s.subrange(0, m as int) =~= s);
        match parse_lines(split_lines(s)) {
            Option::None => {}
            Option::Some(rest) => {
                assert(views(tasks@) + rest =~= rest);
            }
        }
    }
    while i < m
        invariant
            0 <= i <= m,
            m == s.len(),
            trimmed@ == s,
            s == trim_spec(text@),
            match parse_lines(split_lines(s.subrange(i as int, m as int))) {
                Option::None => parse_lines(split_lines(s)) is None,
                Option::Some(rest) => parse_lines(split_lines(s)) == Option::Some(
                    views(tasks@) + rest,
                ),
            },
        decreases m - i,
    {
        let mut k: usize = i;
        while k < m && trimmed.get_char(k) != '\n'
            invariant
                i <= k <= m,
                m == s.len(),
                trimmed@ == s,
                forall|j: int| i <= j < k ==> s[j] != '\n',
            decreases m - k,
        {
            k += 1;
        }
        let ghost rem = s.subrange(i as int, m as int);
        let ghost l = s.subrange(i as int, k as int);
        let ghost tail = if k < m {
            s.subrange(k as int + 1, m as int)
        } else {
            Seq::<char>::empty()
        };
        proof {
            assert(forall|j: int| 0 <= j < k - i ==> #[trigger] rem[j] == s[i + j]);
            if k < m {
                lemma_split_lines_step(rem, k - i);
                assert(rem.subrange(0, k - i) =~= l);
                assert(rem.subrange(k - i + 1, rem.len() as int) =~= tail);
            } else {
                lemma_split_lines_whole(rem);
                assert(rem =~= l);
                assert(seq![l] + Seq::<Seq<char>>::empty() =~= seq![l]);
            }
            assert(split_lines(rem) == seq![l] + split_lines(tail));
            lemma_parse_lines_cons(l, split_lines(tail));
        }
        if k - i < 3 {
            // The short line fails the whole remainder, and with it the
            // whole text.
            return Err(DecodeError::LineTooShort);
        }
        let completed = trimmed.get_char(i + 1) == 'x';
        let mut p: usize = i + 3;
        while p < k && is_wspace_char(trimmed.get_char(p))
            invariant
                i + 3 <= p <= k,
                k <= m,
                m == s.len(),
                trimmed@ == s,
                forall|j: int| i + 3 <= j < p ==> is_wspace(s[j]),
            decreases k - p,
        {
            p += 1;
        }
        let mut q: usize = k;
        while q > p && is_wspace_char(trimmed.get_char(q - 1))
            invariant
                p <= q <= k,
                k <= m,
                m == s.len(),
                trimmed@ == s,
                forall|j: int| q <= j < k ==> is_wspace(s[j]),
            decreases q,
        {
            q -= 1;
        }
        let content = String::from_str(trimmed.substring_char(p, q));
        let task = Task { completed, content };
        proof {
            let sub = l.subrange(3, l.len() as int);
            assert(sub =~= s.subrange(i + 3, k as int));
            assert(forall|j: int| 0 <= j < sub.len() ==> #[trigger] sub[j] == s[i + 3 + j]);
            lemma_trim_bounds(sub, p - (i + 3), q - (i + 3));
            assert(sub.subrange(p - (i + 3), q - (i + 3)) =~= s.subrange(p as int, q as int));
            assert(l[1] == s[i + 1]);
            assert(parse_line(l) == Option::Some(task@));
            assert(views(tasks@.push(task)) =~= views(tasks@).push(task@));
            match parse_lines(split_lines(tail)) {
                Option::None => {}
                Option::Some(rest2) => {
                    assert(views(tasks@) + (seq![task@] + rest2) =~= views(tasks@.push(task))
                        + rest2);
                }
            }
        }
        tasks.push(task);
        i = if k < m {
            k + 1
        } else {
            m
        };
    }
    proof {
        assert(s.subrange(m as int, m as int) =~= Seq::<char>::empty());
        assert(views(tasks@) + Seq::<TaskView>::empty() =~= views(tasks@));
    }
    Ok(tasks)
}

/// Write `tasks` out in the file format: one `[x] text` or `[ ] text`
/// line per task, in order, each line ended by a newline.
pub fn to_file(tasks: &Vec<Task>) -> (r: String)
    ensures
        r@ == encode_spec(views(tasks@)),
{
    let mut content = String::new();
    let mut idx: usize = 0;
    while idx < tasks.len()
        invariant
            idx <= tasks.len(),
            content@ == encode_spec(views(tasks@).take(idx as int)),
        decreases tasks.len() - idx,
    {
        content.append("[");
        if tasks[idx].completed {
            content.append("x");
        } else {
            content.append(" ");
        }
        content.append("] ");
        content.append(tasks[idx].content.as_str());
        content.append("\n");
        proof {
            reveal_strlit("[");
            reveal_strlit("x");
            reveal_strlit(" ");
            reveal_strlit("] ");
            reveal_strlit("\n");
            let vs = views(tasks@);
            lemma_encode_snoc(vs.take(idx as int), vs[idx as int]);
            assert(vs.take(idx as int + 1) =~= vs.take(idx as int).push(vs[idx as int]));
            assert(content@ =~= encode_spec(vs.take(idx as int + 1)));
        }
        idx += 1;
    }
    proof {
        assert(views(tasks@).take(tasks@.len() as int) =~= views(tasks@));
    }
    content
}

proof fn lemma_trim_start_len(s: Seq<char>)
    ensures
        trim_start_spec(s).len() <= s.len(),
        s.len() > 0 && is_wspace(s[0]) ==> trim_start_spec(s).len() < s.len(),
    decreases s.len(),
{
    if s.len() > 0 && is_wspace(s[0]) {
        lemma_trim_start_len(s.drop_first());
    }
}

proof fn lemma_trim_end_len(s: Seq<char>)
    ensures
        trim_end_spec(s).len() <= s.len(),
        s.len() > 0 && is_wspace(s.last()) ==> trim_end_spec(s).len() < s.len(),
    decreases s.len(),
{
    if s.len() > 0 && is_wspace(s.last()) {
        lemma_trim_end_len(s.drop_last());
    }
}

proof fn lemma_trimmed_fixed(c: Seq<char>)
    requires
        trim_spec(c) == c,
    ensures
        trim_start_spec(c) == c,
        trim_end_spec(c) == c,
        c.len() > 0 ==> !is_wspace(c[0]) && !is_wspace(c.last()),
{
    lemma_trim_start_len(c);
    lemma_trim_end_len(trim_start_spec(c));
    assert(trim_start_spec(c).len() == c.len());
    lemma_trim_end_len(c);
}

proof fn lemma_trim_end_append(x: Seq<char>, y: Seq<char>)
    requires
        trim_end_spec(y).len() > 0,
    ensures
        trim_end_spec(x + y) == x + trim_end_spec(y),
    decreases y.len(),
{
    if y.len() > 0 {
        if is_wspace(y.last()) {
            assert((x + y).drop_last() =~= x + y.drop_last());
            lemma_trim_end_append(x, y.drop_last());
        } else {
            assert((x + y).last() == y.last());
        }
    } else {
        lemma_trim_end_len(y);
    }
}

/// The line a task is written as, without its final newline.
pub open spec fn line_core(t: TaskView) -> Seq<char> {
    seq!['[', marker(t.completed), ']', ' '] + t.content
}

/// Content fit for a task: no newline inside, no whitespace around.
pub open spec fn wf_content(s: Seq<char>) -> bool {
    &&& forall|j: int| 0 <= j < s.len() ==> s[j] != '\n'
    &&& trim_spec(s) == s
}

/// Every task of the sequence has content fit for the file format.
pub open spec fn wf_views(ts: Seq<TaskView>) -> bool {
    forall|j: int| 0 <= j < ts.len() ==> wf_content(#[trigger] ts[j].content)
}

proof fn lemma_parse_line_core(t: TaskView)
    requires
        wf_content(t.content),
    ensures
        parse_line(line_core(t)) == Option::Some(t),
        trim_end_spec(line_core(t)) == if t.content.len() == 0 {
            line_core(t).subrange(0, 3)
        } else {
            line_core(t)
        },
        parse_line(trim_end_spec(line_core(t))) == Option::Some(t),
        forall|j: int|
            0 <= j < trim_end_spec(line_core(t)).len() ==> trim_end_spec(line_core(t))[j] != '\n',
        trim_end_spec(line_core(t)).len() >= 3,
        trim_end_spec(line_core(t))[0] == '[',
    decreases t.content.len(),
{
    let l = line_core(t);
    let c = t.content;
    lemma_trimmed_fixed(c);
    if c.len() == 0 {
        reveal_with_fuel(trim_end_spec, 3);
        assert(l =~= seq!['[', marker(t.completed), ']', ' ']);
        assert(l.drop_last() =~= seq!['[', marker(t.completed), ']']);
        let e = trim_end_spec(l);
        assert(e =~= l.subrange(0, 3));
        assert(e.subrange(3, 3) =~= Seq::<char>::empty());
        assert(parse_line(e) == Option::Some(t)) by {
            assert(trim_spec(Seq::<char>::empty()) =~= Seq::<char>::empty());
            assert(parse_line(e)->Some_0 =~= t);
        }
        assert(l.subrange(3, 4) =~= seq![' ']);
        assert(trim_spec(seq![' ']) =~= Seq::<char>::empty()) by {
            assert(seq![' '].drop_first() =~= Seq::<char>::empty());
        }
        assert(parse_line(l)->Some_0 =~= t);
    } else {
        assert(l.last() == c.last());
        assert(trim_end_spec(l) == l);
        let sub = l.subrange(3, l.len() as int);
        assert(sub =~= seq![' '] + c);
        assert(sub.drop_first() =~= c);
        assert(trim_start_spec(sub) == trim_start_spec(c));
        assert(trim_spec(sub) == c);
        assert(parse_line(l)->Some_0 =~= t);
    }
}

proof fn lemma_round_trip_rec(ts: Seq<TaskView>)
    requires
        wf_views(ts),
    ensures
        ts.len() == 0 ==> trim_end_spec(encode_spec(ts)) == Seq::<char>::empty(),
        ts.len() > 0 ==> trim_end_spec(encode_spec(ts)).len() >= 3 && parse_lines(
            split_lines(trim_end_spec(encode_spec(ts))),
        ) == Option::Some(ts),
    decreases ts.len(),
{
    if ts.len() > 0 {
        let t = ts[0];
        let rest = ts.drop_first();
        let l = line_core(t);
        assert(wf_content(t.content));
        lemma_parse_line_core(t);
        assert(encode_line(t) =~= l + seq!['\n']);
        lemma_round_trip_rec(rest);
        if rest.len() == 0 {
            assert(encode_spec(ts) =~= encode_line(t));
            assert((l + seq!['\n']).drop_last() =~= l);
            let e = trim_end_spec(encode_spec(ts));
            assert(e == trim_end_spec(l));
            lemma_split_lines_whole(e);
            lemma_parse_lines_cons(e, Seq::<Seq<char>>::empty());
            assert(seq![e] + Seq::<Seq<char>>::empty() =~= seq![e]);
            assert(seq![t] + Seq::<TaskView>::empty() =~= ts);
        } else {
            let er = trim_end_spec(encode_spec(rest));
            lemma_trim_end_append(encode_line(t), encode_spec(rest));
            let e = trim_end_spec(encode_spec(ts));
            assert(e == encode_line(t) + er);
            assert(e =~= l + seq!['\n'] + er);
            assert(forall|j: int| 0 <= j < l.len() ==> #[trigger] e[j] == l[j]);
            assert(e[l.len() as int] == '\n');
            lemma_split_lines_step(e, l.len() as int);
            assert(e.subrange(0, l.len() as int) =~= l);
            assert(e.subrange(l.len() as int + 1, e.len() as int) =~= er);
            lemma_parse_lines_cons(l, split_lines(er));
            assert(seq![t] + rest =~= ts);
        }
    }
}

proof fn lemma_trim_start_is_suffix(s: Seq<char>)
    ensures
        trim_start_spec(s).len() <= s.len(),
        trim_start_spec(s) == s.subrange(s.len() - trim_start_spec(s).len(), s.len() as int),
        trim_start_spec(s).len() > 0 ==> !is_wspace(trim_start_spec(s)[0]),
    decreases s.len(),
{
    if s.len() > 0 && is_wspace(s[0]) {
        let d = s.drop_first();
        lemma_trim_start_is_suffix(d);
        assert(d.subrange(d.len() - trim_start_spec(d).len(), d.len() as int) =~= s.subrange(
            s.len() - trim_start_spec(s).len(),
            s.len() as int,
        ));
    } else {
        assert(s.subrange(0, s.len() as int) =~= s);
    }
}

proof fn lemma_trim_end_is_prefix(s: Seq<char>)
    ensures
        trim_end_spec(s).len() <= s.len(),
        trim_end_spec(s) == s.subrange(0, trim_end_spec(s).len() as int),
        trim_end_spec(s).len() > 0 ==> !is_wspace(trim_end_spec(s).last()),
    decreases s.len(),
{
    if s.len() > 0 && is_wspace(s.last()) {
        let d = s.drop_last();
        lemma_trim_end_is_prefix(d);
        assert(d.subrange(0, trim_end_spec(d).len() as int) =~= s.subrange(
            0,
            trim_end_spec(s).len() as int,
        ));
    } else {
        assert(s.subrange(0, s.len() as int) =~= s);
    }
}

proof fn lemma_trim_preserves_no_nl(s: Seq<char>)
    requires
        forall|j: int| 0 <= j < s.len() ==> s[j] != '\n',
    ensures
        forall|j: int| 0 <= j < trim_spec(s).len() ==> trim_spec(s)[j] != '\n',
{
    lemma_trim_start_is_suffix(s);
    let u = trim_start_spec(s);
    lemma_trim_end_is_prefix(u);
    assert(forall|j: int| 0 <= j < u.len() ==> #[trigger] u[j] == s[s.len() - u.len() + j]);
    assert(forall|j: int|
        0 <= j < trim_spec(s).len() ==> #[trigger] trim_spec(s)[j] == u[j]);
}

proof fn lemma_trim_idempotent(s: Seq<char>)
    ensures
        trim_spec(trim_spec(s)) == trim_spec(s),
{
    lemma_trim_start_is_suffix(s);
    let u = trim_start_spec(s);
    lemma_trim_end_is_prefix(u);
    let v = trim_end_spec(u);
    if v.len() > 0 {
        assert(v[0] == u[0]);
        assert(trim_start_spec(v) == v);
        assert(trim_end_spec(v) == v);
    }
}

proof fn lemma_find_nl_props(s: Seq<char>)
    ensures
        find_nl(s) >= 0 ==> find_nl(s) < s.len() && s[find_nl(s)] == '\n' && forall|j: int|
            0 <= j < find_nl(s) ==> s[j] != '\n',
        find_nl(s) < 0 ==> forall|j: int| 0 <= j < s.len() ==> s[j] != '\n',
    decreases s.len(),
{
    if s.len() > 0 && s[0] != '\n' {
        let d = s.drop_first();
        lemma_find_nl_props(d);
        assert(forall|j: int| 0 <= j < d.len() ==> #[trigger] d[j] == s[j + 1]);
        assert(forall|j: int| 1 <= j < s.len() ==> #[trigger] s[j] == d[j - 1]);
    }
}

proof fn lemma_parse_line_wf(l: Seq<char>)
    requires
        forall|j: int| 0 <= j < l.len() ==> l[j] != '\n',
    ensures
        parse_line(l) matches Option::Some(t) ==> wf_content(t.content),
{
    if l.len() >= 3 {
        let sub = l.subrange(3, l.len() as int);
        assert(forall|j: int| 0 <= j < sub.len() ==> #[trigger] sub[j] == l[3 + j]);
        lemma_trim_preserves_no_nl(sub);
        lemma_trim_idempotent(sub);
    }
}

proof fn lemma_decode_lines_wf(s: Seq<char>)
    ensures
        parse_lines(split_lines(s)) matches Option::Some(ts) ==> wf_views(ts),
    decreases s.len(),
{
    if s.len() > 0 {
        lemma_find_nl_props(s);
        let i = find_nl(s);
        if i < 0 {
            lemma_parse_line_wf(s);
            lemma_parse_lines_cons(s, Seq::<Seq<char>>::empty());
            assert(seq![s] + Seq::<Seq<char>>::empty() =~= seq![s]);
            match parse_line(s) {
                Option::None => {}
                Option::Some(t) => {
                    let ts = seq![t] + Seq::<TaskView>::empty();
                    assert(ts[0] == t);
                    assert(wf_views(ts));
                }
            }
        } else {
            let l = s.subrange(0, i);
            let rest = s.subrange(i + 1, s.len() as int);
            assert(forall|j: int| 0 <= j < l.len() ==> #[trigger] l[j] == s[j]);
            lemma_parse_line_wf(l);
            lemma_decode_lines_wf(rest);
            lemma_parse_lines_cons(l, split_lines(rest));
            match parse_line(l) {
                Option::None => {}
                Option::Some(t) => {
                    match parse_lines(split_lines(rest)) {
                        Option::None => {}
                        Option::Some(ts2) => {
                            let ts = seq![t] + ts2;
                            assert(ts[0] == t);
                            assert(forall|j: int|
                                1 <= j < ts.len() ==> #[trigger] ts[j] == ts2[j - 1]);
                            assert(wf_views(ts));
                        }
                    }
                }
            }
        }
    }
}

/// What a text decodes to is fit to be encoded again: no content holds
/// a newline or surrounding whitespace.
pub proof fn lemma_decode_wf(s: Seq<char>)
    ensures
        decode_spec(s) matches Option::Some(ts) ==> wf_views(ts),
{
    lemma_decode_lines_wf(trim_spec(s));
}

/// Round trip: a sequence of tasks whose texts hold no newline and no
/// surrounding whitespace decodes, from its own encoding, back to
/// itself.
pub proof fn lemma_round_trip(ts: Seq<TaskView>)
    requires
        wf_views(ts),
    ensures
        decode_spec(encode_spec(ts)) == Option::Some(ts),
{
    lemma_round_trip_rec(ts);
    if ts.len() == 0 {
        assert(trim_start_spec(encode_spec(ts)) == encode_spec(ts));
        assert(ts =~= Seq::<TaskView>::empty());
    } else {
        assert(encode_spec(ts)[0] == '[');
        assert(trim_start_spec(encode_spec(ts)) == encode_spec(ts));
    }
}

/// Encoding what a well-formed text decoded to, then decoding that,
/// reproduces the same tasks.
pub proof fn lemma_encode_after_decode(s: Seq<char>)
    requires
        decode_spec(s) is Some,
    ensures
        decode_spec(encode_spec(decode_spec(s)->Some_0)) == decode_spec(s),
{
    lemma_decode_wf(s);
    lemma_round_trip(decode_spec(s)->Some_0);
}

} // verus!
