//! The task codec: a lenient, stateful line grammar that decodes a flat text
//! stream into an ordered sequence of tasks, and encodes tasks back into that
//! stream.
//!
//! Per line, in priority order: the record delimiter flushes the accumulated
//! body (when nonempty) as one task; a line starting with `|` sets the
//! current importance flag, true exactly when the trimmed line is the
//! `|important` literal; anything else is body text. The flag is *not* reset
//! between records: it carries over until a later marker line overwrites it.
//!
//! A "created at" date/time header that the presentation layer bakes into a
//! body at creation time is opaque body text here: the codec parses no dates.
//! A line may end in LF or CRLF: one carriage return before the newline is
//! stripped when the stream is split into lines.

use vstd::prelude::*;
use vstd::string::StrSliceExecFns;
use vstd::string::StringExecFns;
use crate::text::{trim, trim_start, trim_end, split_lines, join_lines, strip_cr, has_no_crlf};
use crate::text::{lemma_first_nl_at, lemma_split_lines_append, lemma_split_single_line,
    lemma_join_split, lemma_trim_append_newline};
use crate::text::{str_eq, trim_str};

verus! {

/// One task: a body of text and an importance flag.
#[derive(Debug, Clone)]
pub struct Task {
    pub text: String,
    pub important: bool,
}

/// The mathematical value of a task.
#[verifier::ext_equal]
pub struct TaskView {
    pub text: Seq<char>,
    pub important: bool,
}

impl View for Task {
    type V = TaskView;

    open spec fn view(&self) -> TaskView {
        TaskView { text: self.text@, important: self.important }
    }
}

/// The values of a sequence of tasks.
pub open spec fn views_of(tasks: Seq<Task>) -> Seq<TaskView> {
    tasks.map_values(|t: Task| t@)
}

/// The record delimiter line.
pub open spec fn delim_line() -> Seq<char> {
    "<#####%%%#####>"@
}

/// The marker line that turns the importance flag on.
pub open spec fn marker_important() -> Seq<char> {
    "|important"@
}

/// The marker line written for a task that is not important.
pub open spec fn marker_normal() -> Seq<char> {
    "|normal"@
}

/// A line that sets the importance flag: it begins with the marker prefix.
pub open spec fn is_marker_line(line: Seq<char>) -> bool {
    line.len() > 0 && line[0] == '|'
}

/// One raw record: the accumulated body (each line newline-terminated) and
/// the importance flag at the moment the record was flushed. A record whose
/// body trims to nothing is dropped, never materialized, so no task ever
/// holds empty text.
pub open spec fn decode_records(lines: Seq<Seq<char>>, buf: Seq<char>, flag: bool) -> Seq<
    (Seq<char>, bool),
>
    decreases lines.len(),
{
    if lines.len() == 0 {
        if trim(buf).len() > 0 {
            seq![(buf, flag)]
        } else {
            Seq::empty()
        }
    } else {
        let line = lines[0];
        let rest = lines.drop_first();
        if line == delim_line() {
            if trim(buf).len() > 0 {
                seq![(buf, flag)] + decode_records(rest, Seq::empty(), flag)
            } else {
                decode_records(rest, Seq::empty(), flag)
            }
        } else if is_marker_line(line) {
            decode_records(rest, buf, trim(line) == marker_important())
        } else {
            decode_records(rest, buf + line + seq!['\n'], flag)
        }
    }
}

/// The task a raw record yields: its body trimmed at the record boundary.
pub open spec fn task_of_record(r: (Seq<char>, bool)) -> TaskView {
    TaskView { text: trim(r.0), important: r.1 }
}

/// The tasks a sequence of raw records yields.
pub open spec fn tasks_of_records(rs: Seq<(Seq<char>, bool)>) -> Seq<TaskView> {
    rs.map_values(|r: (Seq<char>, bool)| task_of_record(r))
}

/// The raw records of a whole stream.
pub open spec fn spec_decode_records(s: Seq<char>) -> Seq<(Seq<char>, bool)> {
    decode_records(split_lines(s), Seq::empty(), false)
}

/// The tasks a whole stream decodes to.
pub open spec fn spec_decode(s: Seq<char>) -> Seq<TaskView> {
    tasks_of_records(spec_decode_records(s))
}

proof fn lemma_tasks_of_records_concat(a: Seq<(Seq<char>, bool)>, b: Seq<(Seq<char>, bool)>)
    ensures
        tasks_of_records(a + b) == tasks_of_records(a) + tasks_of_records(b),
{
    assert(tasks_of_records(a + b) =~= tasks_of_records(a) + tasks_of_records(b));
}

/// How one line advances the decoding state machine.
proof fn lemma_decode_records_step(line: Seq<char>, rest: Seq<Seq<char>>, buf: Seq<char>, flag: bool)
    ensures
        line == delim_line() && trim(buf).len() > 0 ==> decode_records(seq![line] + rest, buf, flag)
            == seq![(buf, flag)] + decode_records(rest, Seq::empty(), flag),
        line == delim_line() && trim(buf).len() == 0 ==> decode_records(seq![line] + rest, buf, flag)
            == decode_records(rest, Seq::empty(), flag),
        line != delim_line() && is_marker_line(line) ==> decode_records(seq![line] + rest, buf, flag)
            == decode_records(rest, buf, trim(line) == marker_important()),
        line != delim_line() && !is_marker_line(line) ==> decode_records(seq![line] + rest, buf, flag)
            == decode_records(rest, buf + line + seq!['\n'], flag),
{
    assert((seq![line] + rest).drop_first() =~= rest);
    assert((seq![line] + rest)[0] == line);
    assert((seq![line] + rest).len() == rest.len() + 1);
}

/// The text one task encodes to: trimmed body, marker line, delimiter line,
/// each newline-terminated.
pub open spec fn encode_task(t: TaskView) -> Seq<char> {
    trim(t.text) + seq!['\n'] + (if t.important {
        marker_important()
    } else {
        marker_normal()
    }) + seq!['\n'] + delim_line() + seq!['\n']
}

/// The text a sequence of tasks encodes to, in order.
pub open spec fn spec_encode(ts: Seq<TaskView>) -> Seq<char>
    decreases ts.len(),
{
    if ts.len() == 0 {
        Seq::empty()
    } else {
        encode_task(ts[0]) + spec_encode(ts.drop_first())
    }
}

/// The lines of a task body, as they appear in the encoded stream.
pub open spec fn body_lines(text: Seq<char>) -> Seq<Seq<char>> {
    split_lines(text + seq!['\n'])
}

/// A task that survives a round trip: its body is nonempty, already
/// trimmed, and free of carriage returns before newlines, and no body line
/// collides with the delimiter or with the marker prefix.
pub open spec fn encodable(t: TaskView) -> bool {
    &&& t.text.len() > 0
    &&& trim(t.text) == t.text
    &&& has_no_crlf(t.text)
    &&& forall|i: int|
        0 <= i < body_lines(t.text).len() ==> #[trigger] body_lines(t.text)[i] != delim_line()
            && !is_marker_line(body_lines(t.text)[i])
}

proof fn lemma_decode_records_nonempty(lines: Seq<Seq<char>>, buf: Seq<char>, flag: bool)
    ensures
        forall|i: int|
            0 <= i < decode_records(lines, buf, flag).len() ==> trim(
                (#[trigger] decode_records(lines, buf, flag)[i]).0,
            ).len() > 0,
    decreases lines.len(),
{
    if lines.len() == 0 {
    } else {
        let line = lines[0];
        let rest = lines.drop_first();
        if line == delim_line() {
            lemma_decode_records_nonempty(rest, Seq::empty(), flag);
            if trim(buf).len() > 0 {
                let all = decode_records(lines, buf, flag);
                let tail = decode_records(rest, Seq::empty(), flag);
                assert forall|i: int| 0 <= i < all.len() implies trim(all[i].0).len() > 0 by {
                    if i > 0 {
                        assert(trim(tail[i - 1].0).len() > 0);
                    }
                }
            }
        } else if is_marker_line(line) {
            lemma_decode_records_nonempty(rest, buf, trim(line) == marker_important());
            let all = decode_records(lines, buf, flag);
            let tail = decode_records(rest, buf, trim(line) == marker_important());
            assert forall|i: int| 0 <= i < all.len() implies trim(all[i].0).len() > 0 by {
                assert(trim(tail[i].0).len() > 0);
            }
        } else {
            lemma_decode_records_nonempty(rest, buf + line + seq!['\n'], flag);
            let all = decode_records(lines, buf, flag);
            let tail = decode_records(rest, buf + line + seq!['\n'], flag);
            assert forall|i: int| 0 <= i < all.len() implies trim(all[i].0).len() > 0 by {
                assert(trim(tail[i].0).len() > 0);
            }
        }
    }
}

/// Law: a record whose accumulated body is empty, or trims to nothing, is
/// never present in the decoded output, so no decoded task has empty text.
pub proof fn lemma_no_empty_record(s: Seq<char>)
    ensures
        forall|i: int|
            0 <= i < spec_decode_records(s).len() ==> (#[trigger] spec_decode_records(
                s,
            )[i]).0.len() > 0,
        forall|i: int|
            0 <= i < spec_decode(s).len() ==> (#[trigger] spec_decode(s)[i]).text.len() > 0,
{
    lemma_decode_records_nonempty(split_lines(s), Seq::empty(), false);
    assert forall|i: int| 0 <= i < spec_decode_records(s).len() implies (
    #[trigger] spec_decode_records(s)[i]).0.len() > 0 by {
        let r = spec_decode_records(s)[i];
        crate::text::lemma_trim_start_props(r.0);
        crate::text::lemma_trim_end_props(trim_start(r.0));
    }
    assert forall|i: int| 0 <= i < spec_decode(s).len() implies (#[trigger] spec_decode(
        s,
    )[i]).text.len() > 0 by {
        assert(spec_decode(s)[i] == task_of_record(spec_decode_records(s)[i]));
    }
}

/// Decodes a stream into its ordered sequence of tasks. Never fails:
/// unrecognized content is absorbed as body text, and a record whose
/// accumulated body is empty, or trims to nothing, is dropped.
pub fn decode(input: &str) -> (tasks: Vec<Task>)
    ensures
        views_of(tasks@) == spec_decode(input@),
{
    let n = input.unicode_len();
    let mut tasks: Vec<Task> = Vec::new();
    let mut buf = String::new();
    let mut flag = false;
    let mut i: usize = 0;
    proof {
        assert(input@.subrange(0, n as int) =~= input@);
        assert(views_of(tasks@) =~= Seq::<TaskView>::empty());
        assert(views_of(tasks@) + tasks_of_records(
            decode_records(split_lines(input@), buf@, flag),
        ) =~= spec_decode(input@));
    }
    while i < n
        invariant
            n == input@.len(),
            i <= n,
            spec_decode(input@) == views_of(tasks@) + tasks_of_records(
                decode_records(split_lines(input@.subrange(i as int, n as int)), buf@, flag),
            ),
        decreases n - i,
    {
        let ghost rem = input@.subrange(i as int, n as int);
        let ghost buf0 = buf@;
        let ghost flag0 = flag;
        let ghost tasks0 = tasks@;
        let mut j: usize = i;
        while j < n && input.get_char(j) != '\n'
            invariant
                n == input@.len(),
                i <= j <= n,
                forall|k: int| i <= k < j ==> input@[k] != '\n',
            decreases n - j,
        {
            j = j + 1;
        }
        let line = if j < n && j > i && input.get_char(j - 1) == '\r' {
            input.substring_char(i, j - 1)
        } else {
            input.substring_char(i, j)
        };
        let next: usize = if j < n {
            j + 1
        } else {
            n
        };
        let ghost rest = input@.subrange(next as int, n as int);
        proof {
            assert forall|k: int| 0 <= k < j - i implies rem[k] != '\n' by {
                assert(input@[k + i] != '\n');
            }
            if (j as int) < n {
                assert(rem[j - i] == '\n');
            }
            lemma_first_nl_at(rem, j - i);
            let raw = rem.subrange(0, j - i);
            if (j as int) < n {
                if j > i && input@[j - 1] == '\r' {
                    assert(raw[raw.len() - 1] == '\r');
                    assert(strip_cr(raw) =~= line@);
                } else {
                    assert(strip_cr(raw) =~= line@);
                }
                assert(rem.subrange(j - i + 1, rem.len() as int) =~= rest);
            } else {
                assert(raw =~= line@);
                assert(rest =~= Seq::<char>::empty());
                assert(split_lines(rest) =~= Seq::<Seq<char>>::empty());
            }
            assert(split_lines(rem) =~= seq![line@] + split_lines(rest));
            lemma_decode_records_step(line@, split_lines(rest), buf0, flag0);
        }
        if str_eq(line, "<#####%%%#####>") {
            proof {
                assert(line@ == delim_line());
            }
            let text = trim_str(buf.as_str());
            if !text.as_str().is_empty() {
                let task = Task { text, important: flag };
                tasks.push(task);
                proof {
                    assert(trim(buf0).len() > 0);
                    assert(views_of(tasks@) =~= views_of(tasks0) + seq![task@]);
                    assert(task@ == task_of_record((buf0, flag0)));
                    lemma_tasks_of_records_concat(
                        seq![(buf0, flag0)],
                        decode_records(split_lines(rest), Seq::empty(), flag0),
                    );
                    assert(tasks_of_records(seq![(buf0, flag0)]) =~= seq![task@]);
                }
            } else {
                proof {
                    assert(trim(buf0).len() == 0);
                }
            }
            buf = String::new();
        } else if line.unicode_len() > 0 && line.get_char(0) == '|' {
            let trimmed = trim_str(line);
            flag = str_eq(trimmed.as_str(), "|important");
            proof {
                assert(is_marker_line(line@));
                assert(flag == (trim(line@) == marker_important()));
            }
        } else {
            proof {
                reveal_strlit("\n");
                assert("\n"@ =~= seq!['\n']);
                assert(line@ != delim_line() && !is_marker_line(line@));
            }
            buf.append(line);
            buf.append("\n");
            proof {
                assert(buf@ =~= buf0 + line@ + seq!['\n']);
            }
        }
        i = next;
        proof {
            assert(spec_decode(input@) =~= views_of(tasks@) + tasks_of_records(
                decode_records(split_lines(input@.subrange(i as int, n as int)), buf@, flag),
            ));
        }
    }
    proof {
        assert(input@.subrange(n as int, n as int) =~= Seq::<char>::empty());
        assert(split_lines(Seq::<char>::empty()) =~= Seq::<Seq<char>>::empty());
    }
    let ghost tasks0 = tasks@;
    let text = trim_str(buf.as_str());
    if !text.as_str().is_empty() {
        let task = Task { text, important: flag };
        proof {
            assert(decode_records(Seq::<Seq<char>>::empty(), buf@, flag) =~= seq![(buf@, flag)]);
            assert(tasks_of_records(seq![(buf@, flag)]) =~= seq![task@]);
        }
        tasks.push(task);
        proof {
            assert(views_of(tasks@) =~= views_of(tasks0) + seq![task@]);
        }
    } else {
        proof {
            assert(decode_records(Seq::<Seq<char>>::empty(), buf@, flag) =~= Seq::<(
                Seq<char>,
                bool,
            )>::empty());
            assert(tasks_of_records(Seq::<(Seq<char>, bool)>::empty()) =~= Seq::<
                TaskView,
            >::empty());
        }
    }
    proof {
        assert(views_of(tasks@) =~= spec_decode(input@));
    }
    tasks
}

/// Encoding appends one task's text at the tail.
proof fn lemma_encode_snoc(ts: Seq<TaskView>, t: TaskView)
    ensures
        spec_encode(ts.push(t)) == spec_encode(ts) + encode_task(t),
    decreases ts.len(),
{
    if ts.len() == 0 {
        assert(ts.push(t)[0] == t);
        let rest = ts.push(t).drop_first();
        assert(rest =~= Seq::<TaskView>::empty());
        assert(spec_encode(rest) =~= Seq::<char>::empty());
        assert(spec_encode(ts.push(t)) =~= encode_task(t));
        assert(spec_encode(ts) + encode_task(t) =~= encode_task(t));
    } else {
        assert(ts.push(t).drop_first() =~= ts.drop_first().push(t));
        lemma_encode_snoc(ts.drop_first(), t);
        assert(spec_encode(ts.push(t)) =~= spec_encode(ts) + encode_task(t));
    }
}

/// Encodes tasks, in order, into one stream: for each task its trimmed body,
/// a marker line, and the delimiter line.
pub fn encode(tasks: &Vec<Task>) -> (out: String)
    ensures
        out@ == spec_encode(views_of(tasks@)),
{
    let mut out = String::new();
    let mut i: usize = 0;
    while i < tasks.len()
        invariant
            i <= tasks@.len(),
            out@ == spec_encode(views_of(tasks@).subrange(0, i as int)),
        decreases tasks@.len() - i,
    {
        let task = &tasks[i];
        let trimmed = trim_str(task.text.as_str());
        out.append(trimmed.as_str());
        out.append("\n");
        if task.important {
            out.append("|important");
        } else {
            out.append("|normal");
        }
        out.append("\n");
        out.append("<#####%%%#####>");
        out.append("\n");
        proof {
            reveal_strlit("\n");
            assert("\n"@ =~= seq!['\n']);
            let prefix = views_of(tasks@).subrange(0, i as int);
            lemma_encode_snoc(prefix, tasks@[i as int]@);
            assert(prefix.push(tasks@[i as int]@) =~= views_of(tasks@).subrange(0, i + 1));
            assert(out@ =~= spec_encode(prefix) + encode_task(tasks@[i as int]@));
        }
        i = i + 1;
    }
    proof {
        assert(views_of(tasks@).subrange(0, tasks@.len() as int) =~= views_of(tasks@));
    }
    out
}

/// Lines that are neither delimiter nor marker are absorbed into the body.
proof fn lemma_decode_body_lines(
    bls: Seq<Seq<char>>,
    more: Seq<Seq<char>>,
    buf: Seq<char>,
    flag: bool,
)
    requires
        forall|i: int|
            0 <= i < bls.len() ==> #[trigger] bls[i] != delim_line() && !is_marker_line(bls[i]),
    ensures
        decode_records(bls + more, buf, flag) == decode_records(more, buf + join_lines(bls), flag),
    decreases bls.len(),
{
    if bls.len() == 0 {
        assert(bls + more =~= more);
        assert(buf + join_lines(bls) =~= buf);
    } else {
        let line = bls[0];
        let tail = bls.drop_first();
        assert(bls + more =~= seq![line] + (tail + more));
        lemma_decode_records_step(line, tail + more, buf, flag);
        assert forall|i: int|
            0 <= i < tail.len() implies #[trigger] tail[i] != delim_line() && !is_marker_line(
            tail[i],
        ) by {
            assert(bls[i + 1] != delim_line() && !is_marker_line(bls[i + 1]));
        }
        lemma_decode_body_lines(tail, more, buf + line + seq!['\n'], flag);
        assert(buf + line + seq!['\n'] + join_lines(tail) =~= buf + join_lines(bls));
    }
}

/// Decoding the encoding of one well-formed task flushes exactly that task
/// and leaves the importance flag set to the task's own flag.
proof fn lemma_decode_encoded_one(t: TaskView, more: Seq<char>, flag: bool)
    requires
        encodable(t),
    ensures
        decode_records(split_lines(encode_task(t) + more), Seq::empty(), flag) == seq![
            (t.text + seq!['\n'], t.important),
        ] + decode_records(split_lines(more), Seq::empty(), t.important),
{
    reveal_strlit("|important");
    reveal_strlit("|normal");
    reveal_strlit("<#####%%%#####>");
    let marker = if t.important {
        marker_important()
    } else {
        marker_normal()
    };
    let r2 = delim_line() + seq!['\n'] + more;
    let r1 = marker + seq!['\n'] + r2;
    assert(encode_task(t) + more =~= t.text + seq!['\n'] + r1);
    lemma_split_lines_append(t.text, r1);
    lemma_split_lines_append(marker, r2);
    lemma_split_lines_append(delim_line(), more);
    assert(forall|i: int| 0 <= i < marker.len() ==> marker[i] != '\n');
    assert(forall|i: int| 0 <= i < delim_line().len() ==> delim_line()[i] != '\n');
    lemma_split_single_line(marker);
    lemma_split_single_line(delim_line());
    let lines = split_lines(encode_task(t) + more);
    assert(lines =~= body_lines(t.text) + (seq![marker] + (seq![delim_line()] + split_lines(
        more,
    ))));
    lemma_decode_body_lines(
        body_lines(t.text),
        seq![marker] + (seq![delim_line()] + split_lines(more)),
        Seq::empty(),
        flag,
    );
    crate::text::lemma_trimmed_ends(t.text);
    lemma_join_split(t.text);
    let body = t.text + seq!['\n'];
    assert(Seq::<char>::empty() + join_lines(body_lines(t.text)) =~= body);
    assert(marker != delim_line());
    assert(is_marker_line(marker));
    assert(trim_start(marker) == marker);
    assert(trim_end(marker) == marker);
    assert((trim(marker) == marker_important()) == t.important);
    lemma_decode_records_step(marker, seq![delim_line()] + split_lines(more), body, flag);
    lemma_trim_append_newline(t.text);
    assert(trim(body).len() > 0);
    lemma_decode_records_step(delim_line(), split_lines(more), body, t.important);
}

/// The raw record stream of an encoded, well-formed task list.
proof fn lemma_decode_encode_records(ts: Seq<TaskView>, flag: bool)
    requires
        forall|i: int| 0 <= i < ts.len() ==> encodable(#[trigger] ts[i]),
    ensures
        decode_records(split_lines(spec_encode(ts)), Seq::empty(), flag) == ts.map_values(
            |t: TaskView| (t.text + seq!['\n'], t.important),
        ),
    decreases ts.len(),
{
    if ts.len() == 0 {
        assert(split_lines(spec_encode(ts)) =~= Seq::<Seq<char>>::empty());
        assert(decode_records(split_lines(spec_encode(ts)), Seq::empty(), flag) =~= ts.map_values(
            |t: TaskView| (t.text + seq!['\n'], t.important),
        ));
    } else {
        let t = ts[0];
        let rest = ts.drop_first();
        assert(encodable(t));
        lemma_decode_encoded_one(t, spec_encode(rest), flag);
        assert forall|i: int| 0 <= i < rest.len() implies encodable(#[trigger] rest[i]) by {
            assert(encodable(ts[i + 1]));
        }
        lemma_decode_encode_records(rest, t.important);
        assert(decode_records(split_lines(spec_encode(ts)), Seq::empty(), flag) =~= ts.map_values(
            |t: TaskView| (t.text + seq!['\n'], t.important),
        ));
    }
}

/// Law: for any task list whose bodies are nonempty, trimmed, and free of
/// delimiter and marker lines, decoding the encoded stream reproduces the
/// same sequence of (text, importance) pairs.
pub proof fn lemma_decode_encode_round_trip(ts: Seq<TaskView>)
    requires
        forall|i: int| 0 <= i < ts.len() ==> encodable(#[trigger] ts[i]),
    ensures
        spec_decode(spec_encode(ts)) == ts,
{
    lemma_decode_encode_records(ts, false);
    let raw = ts.map_values(|t: TaskView| (t.text + seq!['\n'], t.important));
    assert forall|i: int| 0 <= i < ts.len() implies tasks_of_records(raw)[i] == ts[i] by {
        assert(encodable(ts[i]));
        lemma_trim_append_newline(ts[i].text);
        assert(task_of_record(raw[i]) =~= ts[i]);
    }
    assert(spec_decode(spec_encode(ts)) =~= ts);
}

} // verus!
