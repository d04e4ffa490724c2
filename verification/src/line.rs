//! The record grammar: one task is one line, a four-character marker
//! followed by the task's text.

use vstd::prelude::*;
use vstd::std_specs::iter::IteratorSpec;

verus! {

/// The four characters that open the line of a pending task.
pub open spec fn pending_marker() -> Seq<char> {
    seq!['[', ' ', ']', ' ']
}

/// The four characters that open the line of a finished task.
pub open spec fn done_marker() -> Seq<char> {
    seq!['[', '*', ']', ' ']
}

/// The marker that stands for a completion flag.
pub open spec fn marker(done: bool) -> Seq<char> {
    if done {
        done_marker()
    } else {
        pending_marker()
    }
}

/// A line begins with `m` when its first characters are exactly those of `m`.
pub open spec fn begins_with(line: Seq<char>, m: Seq<char>) -> bool {
    line.len() >= m.len() && line.subrange(0, m.len() as int) == m
}

/// The line of a pending task.
pub open spec fn is_pending_line(line: Seq<char>) -> bool {
    begins_with(line, pending_marker())
}

/// The line of a finished task.
pub open spec fn is_done_line(line: Seq<char>) -> bool {
    begins_with(line, done_marker())
}

/// A line is a task record when it begins with one of the two markers.
pub open spec fn is_valid_line(line: Seq<char>) -> bool {
    is_pending_line(line) || is_done_line(line)
}

/// What follows the marker on a line.
pub open spec fn line_body(line: Seq<char>) -> Seq<char> {
    line.skip(4)
}

/// The mathematical value of a [`Task`].
pub struct TaskView {
    pub done: bool,
    pub text: Seq<char>,
}

/// The line that records a task: its marker, then its text.
pub open spec fn format_line(task: TaskView) -> Seq<char> {
    marker(task.done) + task.text
}

/// The task that a line records, if the line is a task record.
pub open spec fn parse_line(line: Seq<char>) -> Option<TaskView> {
    if is_pending_line(line) {
        Some(TaskView { done: false, text: line_body(line) })
    } else if is_done_line(line) {
        Some(TaskView { done: true, text: line_body(line) })
    } else {
        None
    }
}

/// The same line with the marker for `done` in place of its own.
pub open spec fn remark_line(line: Seq<char>, done: bool) -> Seq<char> {
    marker(done) + line_body(line)
}

/// One entry of the list: a completion flag and a free text.
#[derive(Debug, Clone, PartialEq, Eq)]
pub struct Task {
    pub done: bool,
    pub text: String,
}

impl View for Task {
    type V = TaskView;

    open spec fn view(&self) -> TaskView {
        TaskView { done: self.done, text: self.text@ }
    }
}

/// Parsing a formatted task gives the task back, marker and text alike.
pub proof fn lemma_parse_inverts_format(task: TaskView)
    ensures
        is_valid_line(format_line(task)),
        parse_line(format_line(task)) == Some(task),
{
    let line = format_line(task);
    assert(line.subrange(0, 4) =~= marker(task.done));
    assert(line_body(line) =~= task.text);
    assert(pending_marker()[1] != done_marker()[1]);
}

/// Formatting what a task record parses to gives the record back.
pub proof fn lemma_format_inverts_parse(line: Seq<char>)
    requires
        is_valid_line(line),
    ensures
        parse_line(line) is Some,
        format_line(parse_line(line)->0) == line,
{
    assert(line.subrange(0, 4) + line.skip(4) =~= line);
}

/// No line is pending and finished at once, and a task record is one of
/// the two.
pub proof fn lemma_markers_differ(line: Seq<char>)
    ensures
        !(is_pending_line(line) && is_done_line(line)),
        parse_line(line) matches Some(task) ==> (task.done <==> is_done_line(line)) && (!task.done
            <==> is_pending_line(line)) && task.text == line_body(line),
        parse_line(line) is Some <==> is_valid_line(line),
{
    assert(pending_marker()[1] != done_marker()[1]);
}

/// A line of fewer than four characters is no task record.
pub proof fn lemma_short_line_is_invalid(line: Seq<char>)
    requires
        line.len() < 4,
    ensures
        !is_valid_line(line),
{
}

/// A line with a new marker is a task record with the old text.
pub proof fn lemma_remark_line(line: Seq<char>, done: bool)
    ensures
        is_valid_line(remark_line(line, done)),
        is_done_line(remark_line(line, done)) == done,
        is_pending_line(remark_line(line, done)) == !done,
        line_body(remark_line(line, done)) == line_body(line),
        remark_line(remark_line(line, done), !done) == remark_line(line, !done),
        (done && is_done_line(line) || !done && is_pending_line(line)) ==> remark_line(line, done)
            == line,
{
    let marked = remark_line(line, done);
    assert(marked.subrange(0, 4) =~= marker(done));
    assert(line_body(marked) =~= line_body(line));
    assert(pending_marker()[1] != done_marker()[1]);
    if done && is_done_line(line) || !done && is_pending_line(line) {
        assert(line.subrange(0, 4) + line.skip(4) =~= line);
    }
}

/// Reads the marker of `line`: `Some(done)` for one of the two markers, `None`
/// where there is none. The iterator that comes back stands behind the
/// marker.
fn read_marker(line: &str) -> (found: (Option<bool>, std::str::Chars<'_>))
    ensures
        found.0 == match parse_line(line@) {
            Some(task) => Some(task.done),
            None => None,
        },
        found.0 is Some ==> found.1.remaining() == line_body(line@),
{
    let mut chars = line.chars();
    let c0 = chars.next();
    let c1 = chars.next();
    let c2 = chars.next();
    let c3 = chars.next();
    let found = match (c0, c1, c2, c3) {
        (Some(a), Some(b), Some(c), Some(d)) => {
            proof {
                assert(line@.subrange(0, 4) =~= seq![a, b, c, d]);
                assert(chars.remaining() =~= line@.skip(4));
                assert(pending_marker()[1] != done_marker()[1]);
            }
            if a == '[' && c == ']' && d == ' ' {
                if b == ' ' {
                    Some(false)
                } else if b == '*' {
                    Some(true)
                } else {
                    None
                }
            } else {
                None
            }
        },
        _ => None,
    };
    (found, chars)
}

/// Decides whether `task` is a well-formed task record: at least four
/// characters, the first four being one of the two markers.
pub fn is_valid_task(task: &str) -> (valid: bool)
    ensures
        valid == is_valid_line(task@),
{
    read_marker(task).0.is_some()
}

/// Reads the completion flag of a task record; `None` where `line` is no
/// task record.
pub fn completion(line: &str) -> (flag: Option<bool>)
    ensures
        flag == match parse_line(line@) {
            Some(task) => Some(task.done),
            None => None,
        },
{
    read_marker(line).0
}

impl Task {
    /// Reads a task from its line; `None` where the line is no task record.
    pub fn parse(line: &str) -> (task: Option<Task>)
        ensures
            match task {
                Some(t) => parse_line(line@) == Some(t@),
                None => parse_line(line@) is None,
            },
    {
        let (found, mut chars) = read_marker(line);
        match found {
            None => None,
            Some(done) => {
                let ghost body = line_body(line@);
                let ghost mut at: int = 0;
                let mut text = String::new();
                loop
                    invariant
                        0 <= at <= body.len(),
                        chars.remaining() == body.skip(at),
                        text@ == body.take(at),
                    ensures
                        text@ == body,
                    decreases body.len() - at,
                {
                    match chars.next() {
                        Some(c) => {
                            text.push(c);
                            proof {
                                assert(body.skip(at).drop_first() =~= body.skip(at + 1));
                                assert(body.take(at + 1) =~= body.take(at).push(c));
                                at = at + 1;
                            }
                        },
                        None => {
                            assert(body.take(at) =~= body);
                            break ;
                        },
                    }
                }
                Some(Task { done, text })
            },
        }
    }

    /// Writes the task as its line: the marker for its flag, then its text.
    pub fn format(&self) -> (line: String)
        ensures
            line@ == format_line(self@),
    {
        let mut line = marker_text(self.done);
        line.append(self.text.as_str());
        line
    }
}

/// The marker for a completion flag, as a string.
pub fn marker_text(done: bool) -> (text: String)
    ensures
        text@ == marker(done),
{
    let mut text = String::new();
    text.push('[');
    text.push(if done {
        '*'
    } else {
        ' '
    });
    text.push(']');
    text.push(' ');
    assert(text@ =~= marker(done));
    text
}

} // verus!
