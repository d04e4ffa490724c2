//! The task list in memory and the commands that read and change it.

use crate::error::{Command, StoreError, Usage};
use crate::line::{
    completion, is_done_line, is_pending_line, is_valid_line, is_valid_task,
    lemma_markers_differ, lemma_remark_line, line_body, marker_text, pending_marker, remark_line,
    Task,
};
use crate::number::{index_of, parse_index};
use crate::text::{
    is_closed_text, lemma_append_then_read, lemma_text_of_concat, lemma_write_then_read, lines_of,
    read_lines, same_text, survives_reload, text_of, texts, write_lines,
};
use std::path::PathBuf;
use vstd::prelude::*;
use vstd::slice::slice_subrange;

verus! {

/// `std::path::PathBuf`, the path of a file. The store carries it and never
/// looks inside.
#[verifier::external_type_specification]
#[verifier::external_body]
pub struct ExPathBuf(PathBuf);

/// The task list of one invocation.
#[derive(Debug)]
pub struct Todo {
    /// The lines of the file, in order; each one should be a task record.
    pub tasks: Vec<String>,
    /// How many lines the file held when it was read.
    pub n_tasks: usize,
    /// Where the file lies.
    pub file_path: PathBuf,
}

/// The mathematical value of a [`Todo`].
pub struct TodoView {
    pub lines: Seq<Seq<char>>,
    pub baseline: nat,
    pub file_path: PathBuf,
}

impl View for Todo {
    type V = TodoView;

    open spec fn view(&self) -> TodoView {
        TodoView {
            lines: texts(self.tasks@),
            baseline: self.n_tasks as nat,
            file_path: self.file_path,
        }
    }
}

/// What is to be written to the file after a command.
#[derive(Debug, Clone, PartialEq, Eq)]
pub struct WritePlan {
    /// Whether `text` goes behind what the file holds (`true`) or takes its
    /// place (`false`).
    pub append: bool,
    /// The characters to write.
    pub text: String,
}

/// The mathematical value of a [`WritePlan`].
pub struct WritePlanView {
    pub append: bool,
    pub text: Seq<char>,
}

impl View for WritePlan {
    type V = WritePlanView;

    open spec fn view(&self) -> WritePlanView {
        WritePlanView { append: self.append, text: self.text@ }
    }
}

/// The write that brings the file in line with the list. An append writes
/// the lines behind the baseline and is refused where there are none; a
/// rewrite writes every line.
pub open spec fn planned_write(store: TodoView, append: bool) -> Result<WritePlanView, StoreError> {
    if !append {
        Ok(WritePlanView { append: false, text: text_of(store.lines) })
    } else if store.lines.len() <= store.baseline {
        Err(StoreError::Logic)
    } else {
        Ok(WritePlanView { append: true, text: text_of(store.lines.skip(store.baseline as int)) })
    }
}

/// `outcome` is what `planned_write` asks for.
pub open spec fn is_planned_write(
    outcome: Result<WritePlan, StoreError>,
    store: TodoView,
    append: bool,
) -> bool {
    match outcome {
        Ok(plan) => planned_write(store, append) == Ok::<WritePlanView, StoreError>(plan@),
        Err(error) => planned_write(store, append) == Err::<WritePlanView, StoreError>(error),
    }
}

/// The line of a new, pending task with the text `text`.
pub open spec fn pending_line(text: Seq<char>) -> Seq<char> {
    pending_marker() + text
}

/// The lines of new, pending tasks, one for each text.
pub open spec fn pending_lines_for(new_texts: Seq<Seq<char>>) -> Seq<Seq<char>> {
    new_texts.map_values(|text: Seq<char>| pending_line(text))
}

/// All of `lines` are task records.
pub open spec fn all_valid(lines: Seq<Seq<char>>) -> bool {
    forall|i: int| 0 <= i < lines.len() ==> is_valid_line(#[trigger] lines[i])
}

/// The line at `position` (counted from 0) is the first of `lines` that is
/// no task record.
pub open spec fn is_first_corrupt(lines: Seq<Seq<char>>, position: int) -> bool {
    &&& 0 <= position < lines.len()
    &&& !is_valid_line(lines[position])
    &&& all_valid(lines.take(position))
}

/// The position (counted from 0) of the first of `lines` that is no task
/// record, if there is one.
pub open spec fn first_corrupt(lines: Seq<Seq<char>>) -> Option<int> {
    if all_valid(lines) {
        None
    } else {
        Some(choose|position: int| is_first_corrupt(lines, position))
    }
}

/// The error that reports the first corrupt line, if there is one. Lines
/// are counted from 1 in it.
pub open spec fn corruption(lines: Seq<Seq<char>>) -> Option<StoreError> {
    match first_corrupt(lines) {
        Some(position) => Some(StoreError::CorruptFile { line: (position + 1) as usize }),
        None => None,
    }
}

/// The argument names the line at `position` (counted from 0): it stands
/// for the number `position + 1`.
pub open spec fn selects(arg: Seq<char>, position: int) -> bool {
    match index_of(arg) {
        Some(index) => index == position + 1,
        None => false,
    }
}

/// One of the arguments names the line at `position` (counted from 0).
pub open spec fn names_position(args: Seq<Seq<char>>, position: int) -> bool {
    exists|k: int| 0 <= k < args.len() && selects(#[trigger] args[k], position)
}

/// Every argument is a list index.
pub open spec fn all_indices(args: Seq<Seq<char>>) -> bool {
    forall|k: int| 0 <= k < args.len() ==> index_of(#[trigger] args[k]) is Some
}

/// `lines` without those that the arguments name. Every argument speaks of
/// the list as it was before any line left it.
pub open spec fn lines_without(lines: Seq<Seq<char>>, args: Seq<Seq<char>>) -> Seq<Seq<char>>
    decreases lines.len(),
{
    if lines.len() == 0 {
        lines
    } else {
        let front = lines_without(lines.drop_last(), args);
        if names_position(args, lines.len() - 1) {
            front
        } else {
            front.push(lines.last())
        }
    }
}

/// What stops `done` and `undone` at one argument: it is no list index, or
/// the line that it names is no task record. An index beyond the list stops
/// nothing.
pub open spec fn arg_fault(lines: Seq<Seq<char>>, arg: Seq<char>, command: Command) -> Option<
    StoreError,
> {
    match index_of(arg) {
        None => Some(StoreError::Usage(Usage::NotAnIndex(command))),
        Some(index) => if 1 <= index <= lines.len() && !is_valid_line(lines[index - 1]) {
            Some(StoreError::CorruptFile { line: index })
        } else {
            None
        },
    }
}

/// The fault of the first argument that has one.
pub open spec fn first_fault(
    lines: Seq<Seq<char>>,
    args: Seq<Seq<char>>,
    command: Command,
) -> Option<StoreError>
    decreases args.len(),
{
    if args.len() == 0 {
        None
    } else {
        match arg_fault(lines, args[0], command) {
            Some(error) => Some(error),
            None => first_fault(lines, args.skip(1), command),
        }
    }
}

/// `lines` with the marker for `done` on those that the arguments name.
pub open spec fn lines_marked(lines: Seq<Seq<char>>, args: Seq<Seq<char>>, done: bool) -> Seq<
    Seq<char>,
> {
    Seq::new(
        lines.len(),
        |j: int|
            if names_position(args, j) {
                remark_line(lines[j], done)
            } else {
                lines[j]
            },
    )
}

/// The pending lines among `lines`, in their order.
pub open spec fn pending_lines(lines: Seq<Seq<char>>) -> Seq<Seq<char>> {
    lines.filter(|line: Seq<char>| is_pending_line(line))
}

/// The lines of finished tasks among `lines`, in their order.
pub open spec fn done_lines(lines: Seq<Seq<char>>) -> Seq<Seq<char>> {
    lines.filter(|line: Seq<char>| is_done_line(line))
}

/// `lines` with the pending ones first and the finished ones behind them,
/// each group in the order it had.
pub open spec fn lines_sorted(lines: Seq<Seq<char>>) -> Seq<Seq<char>> {
    pending_lines(lines) + done_lines(lines)
}

/// The filter `filter` of `raw` lets `line` through: `done` the finished
/// lines, `undone` the pending ones, any other word none.
pub open spec fn shows(filter: Seq<char>, line: Seq<char>) -> bool {
    ||| filter == "done"@ && is_done_line(line)
    ||| filter == "undone"@ && is_pending_line(line)
}

/// The texts of the tasks that `filter` lets through, in their order.
pub open spec fn raw_texts(lines: Seq<Seq<char>>, filter: Seq<char>) -> Seq<Seq<char>> {
    lines.filter(|line: Seq<char>| shows(filter, line)).map_values(
        |line: Seq<char>| line_body(line),
    )
}

/// Only one line is the first corrupt one.
pub proof fn lemma_first_corrupt(lines: Seq<Seq<char>>, position: int)
    requires
        is_first_corrupt(lines, position),
    ensures
        first_corrupt(lines) == Some(position),
        corruption(lines) == Some(StoreError::CorruptFile { line: (position + 1) as usize }),
{
    assert(!all_valid(lines)) by {
        assert(!is_valid_line(lines[position]));
    }
    let chosen = choose|p: int| is_first_corrupt(lines, p);
    if chosen < position {
        assert(lines.take(position)[chosen] == lines[chosen]);
    } else if position < chosen {
        assert(lines.take(chosen)[position] == lines[position]);
    }
}

/// A list with a line of fewer than four characters is corrupt.
pub proof fn lemma_short_line_corrupts(lines: Seq<Seq<char>>, position: int)
    requires
        0 <= position < lines.len(),
        lines[position].len() < 4,
    ensures
        corruption(lines) is Some,
{
    assert(!is_valid_line(lines[position]));
}

impl Todo {
    /// The list that a file holds: `content` is what was read from the file
    /// at `file_path`. The number of lines read is kept as the baseline.
    pub fn new(file_path: PathBuf, content: &str) -> (todo: Todo)
        ensures
            todo@ == (TodoView {
                lines: lines_of(content@),
                baseline: lines_of(content@).len(),
                file_path,
            }),
    {
        let tasks = read_lines(content);
        let n_tasks = tasks.len();
        proof {
            assert(texts(tasks@).len() == tasks@.len());
        }
        Todo { tasks, n_tasks, file_path }
    }

    /// Plans the write that brings the file in line with the list.
    pub fn write_plan(&self, append: bool) -> (outcome: Result<WritePlan, StoreError>)
        ensures
            is_planned_write(outcome, self@, append),
    {
        let mut begin: usize = 0;
        if append {
            if self.tasks.len() <= self.n_tasks {
                return Err(StoreError::Logic);
            }
            begin = self.n_tasks;
        }
        let tail = slice_subrange(self.tasks.as_slice(), begin, self.tasks.len());
        let text = write_lines(tail);
        proof {
            assert(texts(tail@) =~= texts(self.tasks@).skip(begin as int));
            assert(texts(self.tasks@).skip(0) =~= texts(self.tasks@));
        }
        Ok(WritePlan { append, text })
    }

    /// Appends one pending task for each of `args` to the list and plans the
    /// append to the file.
    pub fn add(&mut self, args: &[String]) -> (outcome: Result<WritePlan, StoreError>)
        ensures
            args.len() == 0 ==> outcome == Err::<WritePlan, StoreError>(
                StoreError::Usage(Usage::MissingArgument(Command::Add)),
            ) && *final(self) == *old(self),
            args.len() > 0 ==> final(self)@ == (TodoView {
                lines: old(self)@.lines + pending_lines_for(texts(args@)),
                ..old(self)@
            }) && is_planned_write(outcome, final(self)@, true),
    {
        if args.len() < 1 {
            return Err(StoreError::Usage(Usage::MissingArgument(Command::Add)));
        }
        let mut i: usize = 0;
        while i < args.len()
            invariant
                i <= args.len(),
                self.n_tasks == old(self).n_tasks,
                self.file_path == old(self).file_path,
                texts(self.tasks@) == texts(old(self).tasks@) + pending_lines_for(
                    texts(args@).take(i as int),
                ),
            decreases args.len() - i,
        {
            let mut line = marker_text(false);
            line.append(args[i].as_str());
            let ghost before = texts(self.tasks@);
            self.tasks.push(line);
            proof {
                let all = texts(args@);
                assert(texts(self.tasks@) =~= before.push(line@));
                assert(line@ == pending_line(all[i as int]));
                assert(pending_lines_for(all.take(i + 1)) =~= pending_lines_for(
                    all.take(i as int),
                ).push(line@));
            }
            i += 1;
        }
        proof {
            assert(texts(args@).take(args.len() as int) =~= texts(args@));
        }
        self.write_plan(true)
    }

    /// Takes the tasks that `args` name by their place in the list, counted
    /// from 1, out of the list and plans the rewrite of the file. Every
    /// argument speaks of the list as it was before the call; an index that
    /// names no line removes nothing.
    pub fn remove(&mut self, args: &[String]) -> (outcome: Result<WritePlan, StoreError>)
        ensures
            args.len() == 0 ==> outcome == Err::<WritePlan, StoreError>(
                StoreError::Usage(Usage::MissingArgument(Command::Remove)),
            ) && *final(self) == *old(self),
            args.len() > 0 && !all_indices(texts(args@)) ==> outcome == Err::<
                WritePlan,
                StoreError,
            >(StoreError::Usage(Usage::NotAnIndex(Command::Remove))) && *final(self) == *old(self),
            args.len() > 0 && all_indices(texts(args@)) ==> final(self)@ == (TodoView {
                lines: lines_without(old(self)@.lines, texts(args@)),
                ..old(self)@
            }) && is_planned_write(outcome, final(self)@, false),
    {
        if args.len() < 1 {
            return Err(StoreError::Usage(Usage::MissingArgument(Command::Remove)));
        }
        let wanted = match parse_indices(args) {
            Some(wanted) => wanted,
            None => {
                return Err(StoreError::Usage(Usage::NotAnIndex(Command::Remove)));
            },
        };
        let ghost lines = texts(self.tasks@);
        let ghost names = texts(args@);
        let n = self.tasks.len();
        let mut doomed: Vec<bool> = Vec::new();
        let mut j: usize = 0;
        while j < n
            invariant
                j <= n,
                doomed.len() == j,
                forall|m: int| 0 <= m < j ==> !doomed[m],
            decreases n - j,
        {
            doomed.push(false);
            j += 1;
        }
        let mut k: usize = 0;
        while k < wanted.len()
            invariant
                k <= wanted.len(),
                wanted.len() == names.len(),
                doomed.len() == n,
                n == lines.len(),
                forall|m: int| 0 <= m < names.len() ==> index_of(names[m]) == Some(#[trigger] wanted[m]),
                forall|m: int|
                    0 <= m < n ==> doomed[m] == names_position(names.take(k as int), m),
            decreases wanted.len() - k,
        {
            let index = wanted[k];
            let ghost before = doomed@;
            if 1 <= index && index <= n {
                doomed.set(index - 1, true);
            }
            proof {
                assert forall|m: int| 0 <= m < n implies doomed[m] == names_position(
                    names.take(k + 1),
                    m,
                ) by {
                    lemma_names_position_step(names, k as int, m);
                    assert(before[m] == names_position(names.take(k as int), m));
                }
            }
            k += 1;
        }
        proof {
            assert(names.take(names.len() as int) =~= names);
        }
        let mut kept: Vec<String> = Vec::new();
        let mut j: usize = 0;
        while j < n
            invariant
                j <= n,
                n == self.tasks.len(),
                doomed.len() == n,
                lines == texts(self.tasks@),
                *self == *old(self),
                forall|m: int| 0 <= m < n ==> doomed[m] == names_position(names, m),
                texts(kept@) == lines_without(lines.take(j as int), names),
            decreases n - j,
        {
            let ghost before = texts(kept@);
            if !doomed[j] {
                kept.push(self.tasks[j].clone());
                assert(texts(kept@) =~= before.push(lines[j as int]));
            }
            proof {
                assert(lines.take(j + 1).drop_last() =~= lines.take(j as int));
                assert(lines.take(j + 1).last() == lines[j as int]);
            }
            j += 1;
        }
        proof {
            assert(lines.take(n as int) =~= lines);
        }
        self.tasks = kept;
        self.write_plan(false)
    }

    /// Marks the tasks that `args` name by their place in the list, counted
    /// from 1, as finished and plans the rewrite of the file. An index that
    /// names no line marks nothing. Nothing changes where an argument is no
    /// index or names a line that is no task record.
    pub fn done(&mut self, args: &[String]) -> (outcome: Result<WritePlan, StoreError>)
        ensures
            args.len() == 0 ==> outcome == Err::<WritePlan, StoreError>(
                StoreError::Usage(Usage::MissingArgument(Command::Done)),
            ) && *final(self) == *old(self),
            args.len() > 0 ==> match first_fault(old(self)@.lines, texts(args@), Command::Done) {
                Some(error) => outcome == Err::<WritePlan, StoreError>(error) && *final(self)
                    == *old(self),
                None => final(self)@ == (TodoView {
                    lines: lines_marked(old(self)@.lines, texts(args@), true),
                    ..old(self)@
                }) && is_planned_write(outcome, final(self)@, false),
            },
    {
        self.mark(args, true, Command::Done)
    }

    /// Marks the tasks that `args` name by their place in the list, counted
    /// from 1, as pending and plans the rewrite of the file. An index that
    /// names no line marks nothing. Nothing changes where an argument is no
    /// index or names a line that is no task record.
    pub fn undone(&mut self, args: &[String]) -> (outcome: Result<WritePlan, StoreError>)
        ensures
            args.len() == 0 ==> outcome == Err::<WritePlan, StoreError>(
                StoreError::Usage(Usage::MissingArgument(Command::Undone)),
            ) && *final(self) == *old(self),
            args.len() > 0 ==> match first_fault(old(self)@.lines, texts(args@), Command::Undone) {
                Some(error) => outcome == Err::<WritePlan, StoreError>(error) && *final(self)
                    == *old(self),
                None => final(self)@ == (TodoView {
                    lines: lines_marked(old(self)@.lines, texts(args@), false),
                    ..old(self)@
                }) && is_planned_write(outcome, final(self)@, false),
            },
    {
        self.mark(args, false, Command::Undone)
    }

    /// Gives the tasks that `args` name the marker for `done`, on behalf of
    /// `command`.
    fn mark(&mut self, args: &[String], done: bool, command: Command) -> (outcome: Result<
        WritePlan,
        StoreError,
    >)
        ensures
            args.len() == 0 ==> outcome == Err::<WritePlan, StoreError>(
                StoreError::Usage(Usage::MissingArgument(command)),
            ) && *final(self) == *old(self),
            args.len() > 0 ==> match first_fault(old(self)@.lines, texts(args@), command) {
                Some(error) => outcome == Err::<WritePlan, StoreError>(error) && *final(self)
                    == *old(self),
                None => final(self)@ == (TodoView {
                    lines: lines_marked(old(self)@.lines, texts(args@), done),
                    ..old(self)@
                }) && is_planned_write(outcome, final(self)@, false),
            },
    {
        if args.len() < 1 {
            return Err(StoreError::Usage(Usage::MissingArgument(command)));
        }
        let ghost lines = texts(self.tasks@);
        let ghost names = texts(args@);
        let n = self.tasks.len();
        let mut wanted: Vec<usize> = Vec::new();
        let mut k: usize = 0;
        proof {
            assert(names.skip(0) =~= names);
        }
        while k < args.len()
            invariant
                k <= args.len(),
                wanted.len() == k,
                n == self.tasks.len(),
                *self == *old(self),
                lines == texts(self.tasks@),
                names == texts(args@),
                first_fault(lines, names, command) == first_fault(
                    lines,
                    names.skip(k as int),
                    command,
                ),
                forall|m: int| 0 <= m < k ==> index_of(names[m]) == Some(#[trigger] wanted[m]),
                forall|m: int| 0 <= m < k ==> arg_fault(lines, #[trigger] names[m], command) is None,
            decreases args.len() - k,
        {
            proof {
                assert(names.skip(k as int)[0] == names[k as int]);
                assert(names.skip(k as int).skip(1) =~= names.skip(k + 1));
            }
            match parse_index(args[k].as_str()) {
                None => {
                    return Err(StoreError::Usage(Usage::NotAnIndex(command)));
                },
                Some(index) => {
                    if 1 <= index && index <= n && !is_valid_task(self.tasks[index - 1].as_str()) {
                        return Err(StoreError::CorruptFile { line: index });
                    }
                    wanted.push(index);
                },
            }
            k += 1;
        }
        let mut k: usize = 0;
        proof {
            assert(names.take(0) =~= Seq::<Seq<char>>::empty());
            assert(texts(self.tasks@) =~= lines_marked(lines, names.take(0), done));
        }
        while k < wanted.len()
            invariant
                k <= wanted.len(),
                wanted.len() == names.len(),
                n == self.tasks.len(),
                n == lines.len(),
                self.n_tasks == old(self).n_tasks,
                self.file_path == old(self).file_path,
                forall|m: int| 0 <= m < names.len() ==> index_of(names[m]) == Some(#[trigger] wanted[m]),
                forall|m: int|
                    0 <= m < names.len() ==> arg_fault(lines, #[trigger] names[m], command) is None,
                texts(self.tasks@) == lines_marked(lines, names.take(k as int), done),
            decreases wanted.len() - k,
        {
            let index = wanted[k];
            let ghost before = texts(self.tasks@);
            proof {
                assert(arg_fault(lines, names[k as int], command) is None);
            }
            if 1 <= index && index <= n {
                proof {
                    lemma_remark_line(lines[index - 1], done);
                    lemma_remark_line(before[index - 1], done);
                }
                match Task::parse(self.tasks[index - 1].as_str()) {
                    Some(task) => {
                        let marked = Task { done, text: task.text };
                        self.tasks.set(index - 1, marked.format());
                        proof {
                            assert(texts(self.tasks@) =~= before.update(
                                index - 1,
                                remark_line(lines[index - 1], done),
                            ));
                        }
                    },
                    None => {},
                }
            }
            proof {
                let after = texts(self.tasks@);
                let target = lines_marked(lines, names.take(k + 1), done);
                assert forall|m: int| 0 <= m < n implies after[m] == target[m] by {
                    lemma_names_position_step(names, k as int, m);
                    assert(before[m] == lines_marked(lines, names.take(k as int), done)[m]);
                }
                assert(after =~= target);
            }
            k += 1;
        }
        proof {
            assert(names.take(names.len() as int) =~= names);
        }
        self.write_plan(false)
    }

    /// Puts the pending tasks before the finished ones, each group in the
    /// order it had, and plans the rewrite of the file. Nothing changes where
    /// a line is no task record.
    pub fn sort(&mut self) -> (outcome: Result<WritePlan, StoreError>)
        ensures
            match corruption(old(self)@.lines) {
                Some(error) => outcome == Err::<WritePlan, StoreError>(error) && *final(self)
                    == *old(self),
                None => final(self)@ == (TodoView {
                    lines: lines_sorted(old(self)@.lines),
                    ..old(self)@
                }) && is_planned_write(outcome, final(self)@, false),
            },
    {
        let ghost lines = texts(self.tasks@);
        let n = self.tasks.len();
        let mut pending: Vec<String> = Vec::new();
        let mut finished: Vec<String> = Vec::new();
        let mut j: usize = 0;
        proof {
            assert(lines.take(0) =~= Seq::<Seq<char>>::empty());
            reveal_with_fuel(Seq::filter, 1);
        }
        while j < n
            invariant
                j <= n,
                n == self.tasks.len(),
                *self == *old(self),
                lines == texts(self.tasks@),
                all_valid(lines.take(j as int)),
                texts(pending@) == pending_lines(lines.take(j as int)),
                texts(finished@) == done_lines(lines.take(j as int)),
            decreases n - j,
        {
            let ghost pending_before = texts(pending@);
            let ghost finished_before = texts(finished@);
            proof {
                lemma_filter_step(lines, j as int, |line: Seq<char>| is_pending_line(line));
                lemma_filter_step(lines, j as int, |line: Seq<char>| is_done_line(line));
                lemma_markers_differ(lines[j as int]);
            }
            match completion(self.tasks[j].as_str()) {
                None => {
                    proof {
                        lemma_first_corrupt(lines, j as int);
                    }
                    return Err(StoreError::CorruptFile { line: j + 1 });
                },
                Some(done) => {
                    if done {
                        finished.push(self.tasks[j].clone());
                        assert(texts(finished@) =~= finished_before.push(lines[j as int]));
                    } else {
                        pending.push(self.tasks[j].clone());
                        assert(texts(pending@) =~= pending_before.push(lines[j as int]));
                    }
                },
            }
            proof {
                assert forall|m: int| 0 <= m < j + 1 implies is_valid_line(
                    #[trigger] lines.take(j + 1)[m],
                ) by {
                    if m < j {
                        assert(lines.take(j as int)[m] == lines[m]);
                    }
                }
            }
            j += 1;
        }
        proof {
            assert(lines.take(n as int) =~= lines);
        }
        let ghost first = texts(pending@);
        let ghost second = texts(finished@);
        pending.append(&mut finished);
        proof {
            assert(texts(pending@) =~= first + second);
        }
        self.tasks = pending;
        self.write_plan(false)
    }

    /// The texts of the finished tasks (`done`) or of the pending ones
    /// (`undone`), without markers, in the order of the list. `arg` holds the
    /// filter and nothing else.
    pub fn raw(&self, arg: &[String]) -> (outcome: Result<Vec<String>, StoreError>)
        ensures
            arg.len() != 1 ==> outcome == Err::<Vec<String>, StoreError>(
                StoreError::Usage(Usage::FilterCount),
            ),
            arg.len() == 1 ==> match corruption(self@.lines) {
                Some(error) => outcome == Err::<Vec<String>, StoreError>(error),
                None => outcome matches Ok(shown) && texts(shown@) == raw_texts(
                    self@.lines,
                    arg[0]@,
                ),
            },
    {
        if arg.len() != 1 {
            return Err(StoreError::Usage(Usage::FilterCount));
        }
        let ghost lines = texts(self.tasks@);
        let ghost filter = arg[0]@;
        let finished_wanted = same_text(arg[0].as_str(), "done");
        let pending_wanted = same_text(arg[0].as_str(), "undone");
        let n = self.tasks.len();
        let mut shown: Vec<String> = Vec::new();
        let mut j: usize = 0;
        proof {
            assert(lines.take(0) =~= Seq::<Seq<char>>::empty());
            reveal_with_fuel(Seq::filter, 1);
            assert(texts(shown@) =~= raw_texts(lines.take(0), filter));
        }
        while j < n
            invariant
                j <= n,
                n == self.tasks.len(),
                lines == texts(self.tasks@),
                arg.len() == 1,
                filter == arg[0]@,
                finished_wanted == (filter == "done"@),
                pending_wanted == (filter == "undone"@),
                all_valid(lines.take(j as int)),
                texts(shown@) == raw_texts(lines.take(j as int), filter),
            decreases n - j,
        {
            let ghost before = texts(shown@);
            proof {
                lemma_filter_step(lines, j as int, |line: Seq<char>| shows(filter, line));
                lemma_markers_differ(lines[j as int]);
            }
            match Task::parse(self.tasks[j].as_str()) {
                None => {
                    proof {
                        lemma_first_corrupt(lines, j as int);
                    }
                    return Err(StoreError::CorruptFile { line: j + 1 });
                },
                Some(task) => {
                    if task.done && finished_wanted || !task.done && pending_wanted {
                        shown.push(task.text);
                        proof {
                            assert(texts(shown@) =~= before.push(line_body(lines[j as int])));
                        }
                    }
                },
            }
            proof {
                let chosen = lines.take(j as int).filter(|line: Seq<char>| shows(filter, line));
                if shows(filter, lines[j as int]) {
                    assert(chosen.push(lines[j as int]).map_values(
                        |line: Seq<char>| line_body(line),
                    ) =~= chosen.map_values(|line: Seq<char>| line_body(line)).push(
                        line_body(lines[j as int]),
                    ));
                }
                assert forall|m: int| 0 <= m < j + 1 implies is_valid_line(
                    #[trigger] lines.take(j + 1)[m],
                ) by {
                    if m < j {
                        assert(lines.take(j as int)[m] == lines[m]);
                    }
                }
            }
            j += 1;
        }
        proof {
            assert(lines.take(n as int) =~= lines);
        }
        Ok(shown)
    }
}

/// Reads every argument as a list index; `None` where one of them is none.
pub(crate) fn parse_indices(args: &[String]) -> (indices: Option<Vec<usize>>)
    ensures
        match indices {
            Some(found) => {
                &&& all_indices(texts(args@))
                &&& found.len() == args.len()
                &&& forall|k: int|
                    0 <= k < args.len() ==> index_of(texts(args@)[k]) == Some(#[trigger] found[k])
            },
            None => !all_indices(texts(args@)),
        },
{
    let ghost names = texts(args@);
    let mut found: Vec<usize> = Vec::new();
    let mut k: usize = 0;
    while k < args.len()
        invariant
            k <= args.len(),
            found.len() == k,
            names == texts(args@),
            forall|m: int| 0 <= m < k ==> index_of(names[m]) == Some(#[trigger] found[m]),
        decreases args.len() - k,
    {
        match parse_index(args[k].as_str()) {
            Some(index) => {
                found.push(index);
            },
            None => {
                assert(index_of(names[k as int]) is None);
                return None;
            },
        }
        k += 1;
    }
    proof {
        assert forall|m: int| 0 <= m < names.len() implies index_of(
            #[trigger] names[m],
        ) is Some by {
            assert(index_of(names[m]) == Some(found[m]));
        }
    }
    Some(found)
}

/// One more argument names a position if it selects it or an earlier
/// argument named it.
proof fn lemma_names_position_step(args: Seq<Seq<char>>, k: int, position: int)
    requires
        0 <= k < args.len(),
    ensures
        names_position(args.take(k + 1), position) <==> names_position(args.take(k), position)
            || selects(args[k], position),
{
    let shorter = args.take(k);
    let longer = args.take(k + 1);
    if names_position(longer, position) {
        let w = choose|w: int| 0 <= w < longer.len() && selects(#[trigger] longer[w], position);
        if w < k {
            assert(selects(shorter[w], position));
        }
    }
    if names_position(shorter, position) {
        let w = choose|w: int| 0 <= w < shorter.len() && selects(#[trigger] shorter[w], position);
        assert(selects(longer[w], position));
    }
    if selects(args[k], position) {
        assert(selects(longer[k], position));
    }
}

/// What a filter keeps of one more line.
proof fn lemma_filter_step(lines: Seq<Seq<char>>, j: int, keep: spec_fn(Seq<char>) -> bool)
    requires
        0 <= j < lines.len(),
    ensures
        lines.take(j + 1).filter(keep) == if keep(lines[j]) {
            lines.take(j).filter(keep).push(lines[j])
        } else {
            lines.take(j).filter(keep)
        },
{
    reveal_with_fuel(Seq::filter, 2);
    assert(lines.take(j + 1).drop_last() =~= lines.take(j));
    assert(lines.take(j + 1).last() == lines[j]);
}

/// The line of a new task survives a reload when the task's text does.
proof fn lemma_pending_line_survives(text: Seq<char>)
    requires
        survives_reload(text),
    ensures
        survives_reload(pending_line(text)),
{
    let line = pending_line(text);
    assert forall|j: int| 0 <= j < line.len() implies line[j] != '\n' by {
        if j >= 4 {
            assert(line[j] == text[j - 4]);
            assert(text.contains(text[j - 4]));
        }
    }
    if text.len() > 0 {
        assert(line.last() == text.last());
    }
}

/// `add` and a reload agree. Take a file that is empty or ends in a line
/// feed and the list that was read from it. After `add` of texts that hold
/// no line feed and do not end in a carriage return, the file with the
/// planned text appended holds the list that `add` left in memory, line for
/// line.
pub proof fn lemma_add_then_reload(
    content: Seq<char>,
    new_texts: Seq<Seq<char>>,
    file_path: PathBuf,
)
    requires
        is_closed_text(content),
        new_texts.len() > 0,
        forall|i: int| 0 <= i < new_texts.len() ==> survives_reload(#[trigger] new_texts[i]),
    ensures
        ({
            let loaded = TodoView {
                lines: lines_of(content),
                baseline: lines_of(content).len(),
                file_path,
            };
            let grown = TodoView { lines: loaded.lines + pending_lines_for(new_texts), ..loaded };
            &&& planned_write(grown, true) matches Ok(plan)
            &&& plan.append
            &&& lines_of(content + plan.text) == grown.lines
        }),
{
    let loaded = lines_of(content);
    let added = pending_lines_for(new_texts);
    assert((loaded + added).skip(loaded.len() as int) =~= added);
    assert forall|i: int| 0 <= i < added.len() implies survives_reload(#[trigger] added[i]) by {
        lemma_pending_line_survives(new_texts[i]);
    }
    lemma_append_then_read(content, added);
}

/// A rewrite and a reload agree: where no line of the list holds a line
/// feed or ends in a carriage return, the text that a rewrite plans holds
/// the list, line for line.
pub proof fn lemma_rewrite_then_reload(store: TodoView)
    requires
        forall|i: int| 0 <= i < store.lines.len() ==> survives_reload(#[trigger] store.lines[i]),
    ensures
        planned_write(store, false) matches Ok(plan) && !plan.append && lines_of(plan.text)
            == store.lines,
{
    lemma_write_then_read(store.lines);
}

/// `undone` takes back `done`: after both, with the same arguments, the
/// tasks that they name are pending and every other line is as it was. If
/// the named tasks were pending before, the list is as it was.
pub proof fn lemma_undone_after_done(lines: Seq<Seq<char>>, args: Seq<Seq<char>>)
    ensures
        lines_marked(lines_marked(lines, args, true), args, false) == lines_marked(
            lines,
            args,
            false,
        ),
        (forall|j: int|
            0 <= j < lines.len() && names_position(args, j) ==> is_pending_line(
                #[trigger] lines[j],
            )) ==> lines_marked(lines, args, false) == lines,
{
    let once = lines_marked(lines, args, true);
    let twice = lines_marked(once, args, false);
    let direct = lines_marked(lines, args, false);
    assert forall|j: int| 0 <= j < lines.len() implies twice[j] == direct[j] by {
        lemma_remark_line(lines[j], true);
    }
    assert(twice =~= direct);
    if forall|j: int|
        0 <= j < lines.len() && names_position(args, j) ==> is_pending_line(#[trigger] lines[j]) {
        assert forall|j: int| 0 <= j < lines.len() implies direct[j] == lines[j] by {
            lemma_remark_line(lines[j], false);
        }
        assert(direct =~= lines);
    }
}

/// An append completes the file as a rewrite would write it: where the
/// list has grown beyond its baseline, the text of a rewrite is the text of
/// the lines up to the baseline followed by the text of the append.
pub proof fn lemma_append_completes_rewrite(store: TodoView)
    requires
        store.lines.len() > store.baseline,
    ensures
        planned_write(store, true) matches Ok(tail) && planned_write(store, false) matches Ok(
            whole,
        ) && whole.text == text_of(store.lines.take(store.baseline as int)) + tail.text,
{
    let kept = store.lines.take(store.baseline as int);
    let added = store.lines.skip(store.baseline as int);
    assert(kept + added =~= store.lines);
    lemma_text_of_concat(kept, added);
}

/// `sort` loses no task and makes none up: the sorted list holds every line
/// of a list of task records as often as the list did.
pub proof fn lemma_sorted_keeps_every_line(lines: Seq<Seq<char>>)
    requires
        all_valid(lines),
    ensures
        lines_sorted(lines).len() == lines.len(),
        lines_sorted(lines).to_multiset() == lines.to_multiset(),
    decreases lines.len(),
{
    broadcast use vstd::seq_lib::to_multiset_build, vstd::seq_lib::lemma_multiset_commutative;

    if lines.len() == 0 {
        reveal_with_fuel(Seq::filter, 1);
        assert(lines_sorted(lines) =~= lines);
    } else {
        let front = lines.drop_last();
        let last = lines.last();
        assert(all_valid(front)) by {
            assert forall|i: int| 0 <= i < front.len() implies is_valid_line(
                #[trigger] front[i],
            ) by {
                assert(front[i] == lines[i]);
            }
        }
        lemma_sorted_keeps_every_line(front);
        assert(lines.take(lines.len() - 1) =~= front);
        assert(lines.take(lines.len() as int) =~= lines);
        lemma_filter_step(lines, lines.len() - 1, |line: Seq<char>| is_pending_line(line));
        lemma_filter_step(lines, lines.len() - 1, |line: Seq<char>| is_done_line(line));
        lemma_markers_differ(last);
        assert(is_valid_line(lines[lines.len() - 1]));
        assert(lines =~= front.push(last));
        assert(lines_sorted(lines).to_multiset() =~= lines_sorted(front).to_multiset().insert(
            last,
        ));
    }
}

/// In the sorted list no finished task stands before a pending one.
pub proof fn lemma_sorted_is_partitioned(lines: Seq<Seq<char>>, i: int, j: int)
    requires
        0 <= i < j < lines_sorted(lines).len(),
    ensures
        !(is_done_line(lines_sorted(lines)[i]) && is_pending_line(lines_sorted(lines)[j])),
{
    let first = pending_lines(lines);
    let second = done_lines(lines);
    if i < first.len() {
        lines.lemma_filter_pred(|line: Seq<char>| is_pending_line(line), i);
        lemma_markers_differ(first[i]);
    } else {
        lines.lemma_filter_pred(|line: Seq<char>| is_done_line(line), j - first.len());
        lemma_markers_differ(second[j - first.len()]);
    }
}

/// A filter keeps the whole of a list of which it keeps every line.
proof fn lemma_filter_keeps_all(lines: Seq<Seq<char>>, keep: spec_fn(Seq<char>) -> bool)
    requires
        forall|i: int| 0 <= i < lines.len() ==> keep(#[trigger] lines[i]),
    ensures
        lines.filter(keep) == lines,
    decreases lines.len(),
{
    reveal_with_fuel(Seq::filter, 1);
    if lines.len() > 0 {
        let front = lines.drop_last();
        assert forall|i: int| 0 <= i < front.len() implies keep(#[trigger] front[i]) by {
            assert(front[i] == lines[i]);
        }
        lemma_filter_keeps_all(front, keep);
        assert(keep(lines[lines.len() - 1]));
        assert(front.push(lines.last()) =~= lines);
    }
}

/// Sorting a sorted list changes nothing.
pub proof fn lemma_sorted_twice(lines: Seq<Seq<char>>)
    ensures
        lines_sorted(lines_sorted(lines)) == lines_sorted(lines),
{
    let pending = |line: Seq<char>| is_pending_line(line);
    let finished = |line: Seq<char>| is_done_line(line);
    let first = lines.filter(pending);
    let second = lines.filter(finished);
    assert forall|i: int| 0 <= i < first.len() implies pending(#[trigger] first[i]) && !finished(
        first[i],
    ) by {
        lines.lemma_filter_pred(pending, i);
        lemma_markers_differ(first[i]);
    }
    assert forall|i: int| 0 <= i < second.len() implies finished(#[trigger] second[i])
        && !pending(second[i]) by {
        lines.lemma_filter_pred(finished, i);
        lemma_markers_differ(second[i]);
    }
    lemma_filter_keeps_all(first, pending);
    lemma_filter_keeps_all(second, finished);
    first.lemma_all_neg_filter_empty(finished);
    second.lemma_all_neg_filter_empty(pending);
    Seq::filter_distributes_over_add(first, second, pending);
    Seq::filter_distributes_over_add(first, second, finished);
    assert(first + Seq::<Seq<char>>::empty() =~= first);
    assert(Seq::<Seq<char>>::empty() + second =~= second);
}

} // verus!
