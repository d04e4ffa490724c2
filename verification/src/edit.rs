//! Editing the texts of tasks in an editor: which tasks go to the editor,
//! what it is opened on, and what its result does to the list.

use crate::error::{Command, StoreError, Usage};
use crate::line::{
    completion, is_valid_line, is_valid_task, lemma_markers_differ, line_body, marker_text, Task,
};
use crate::number::index_of;
use crate::store::{all_indices, is_planned_write, parse_indices, Todo, TodoView, WritePlan};
use crate::text::{lines_of, read_lines, text_of, texts};
use vstd::prelude::*;

verus! {

/// The two lines that stand above the tasks in the editor.
pub const EDIT_NOTE: &'static str =
    "# DO NOT DELETE TASKS IN HERE! USE THE 'rm' COMMAND INSTEAD.\n\n";

/// What the editor is to be opened on.
#[derive(Debug, Clone, PartialEq, Eq)]
pub struct EditRequest {
    /// The places in the list, counted from 0, of the tasks to edit.
    pub positions: Vec<usize>,
    /// The text for the editor: the note, then the text of each task on a
    /// line of its own.
    pub buffer: String,
}

/// Every place of a list of `len` lines, in order.
pub open spec fn every_position(len: nat) -> Seq<usize> {
    Seq::new(len, |j: int| j as usize)
}

/// The places (counted from 0) that the arguments name in a list of `len`
/// lines, in the order of the arguments. An index that names no line gives
/// no place.
pub open spec fn positions_named(len: nat, args: Seq<Seq<char>>) -> Seq<usize>
    decreases args.len(),
{
    if args.len() == 0 {
        Seq::empty()
    } else {
        let front = positions_named(len, args.drop_last());
        match index_of(args.last()) {
            Some(index) => if 1 <= index <= len {
                front.push((index - 1) as usize)
            } else {
                front
            },
            None => front,
        }
    }
}

/// The places that `edit` sends to the editor: every place where there is
/// no argument, else those that the arguments name.
pub open spec fn positions_to_edit(len: nat, args: Seq<Seq<char>>) -> Seq<usize> {
    if args.len() == 0 {
        every_position(len)
    } else {
        positions_named(len, args)
    }
}

/// The texts of the tasks at `positions`.
pub open spec fn texts_at(lines: Seq<Seq<char>>, positions: Seq<usize>) -> Seq<Seq<char>> {
    positions.map_values(|p: usize| line_body(lines[p as int]))
}

/// The error for the first of `positions` that lies in the list and at
/// which the line is no task record.
pub open spec fn first_corrupt_visit(lines: Seq<Seq<char>>, positions: Seq<usize>) -> Option<
    StoreError,
>
    decreases positions.len(),
{
    if positions.len() == 0 {
        None
    } else if positions[0] < lines.len() && !is_valid_line(lines[positions[0] as int]) {
        Some(StoreError::CorruptFile { line: (positions[0] + 1) as usize })
    } else {
        first_corrupt_visit(lines, positions.skip(1))
    }
}

/// The texts that come back from the editor: the lines of its text behind
/// the two lines of the note.
pub open spec fn edited_texts(edited: Seq<char>) -> Seq<Seq<char>> {
    if lines_of(edited).len() >= 2 {
        lines_of(edited).skip(2)
    } else {
        Seq::empty()
    }
}

/// A line with its four marker characters and a new text.
pub open spec fn retext_line(line: Seq<char>, text: Seq<char>) -> Seq<char> {
    line.take(4) + text
}

/// `lines` after the edit: the task at the k-th position has the k-th new
/// text. Where a position comes twice, the later text stays; a position
/// beyond the list changes nothing.
pub open spec fn lines_edited(
    lines: Seq<Seq<char>>,
    positions: Seq<usize>,
    new_texts: Seq<Seq<char>>,
) -> Seq<Seq<char>>
    decreases positions.len(),
{
    if positions.len() == 0 {
        lines
    } else {
        let before = lines_edited(lines, positions.drop_last(), new_texts);
        let p = positions.last() as int;
        if p < lines.len() {
            before.update(p, retext_line(lines[p], new_texts[positions.len() - 1]))
        } else {
            before
        }
    }
}

/// Looks for the first of `positions` at which the list holds no task
/// record.
fn check_visits(tasks: &Vec<String>, positions: &[usize]) -> (found: Option<StoreError>)
    ensures
        found == first_corrupt_visit(texts(tasks@), positions@),
{
    let ghost lines = texts(tasks@);
    let mut k: usize = 0;
    proof {
        assert(positions@.skip(0) =~= positions@);
    }
    while k < positions.len()
        invariant
            k <= positions.len(),
            lines == texts(tasks@),
            first_corrupt_visit(lines, positions@) == first_corrupt_visit(
                lines,
                positions@.skip(k as int),
            ),
        decreases positions.len() - k,
    {
        let p = positions[k];
        proof {
            assert(positions@.skip(k as int)[0] == p);
            assert(positions@.skip(k as int).skip(1) =~= positions@.skip(k + 1));
        }
        if p < tasks.len() && !is_valid_task(tasks[p].as_str()) {
            return Some(StoreError::CorruptFile { line: p + 1 });
        }
        k += 1;
    }
    None
}

impl Todo {
    /// Picks the tasks to edit and writes the text for the editor. The
    /// arguments name tasks by their place in the list, counted from 1; no
    /// argument means every task. `None` comes back where no task is
    /// picked.
    pub fn edit(&self, args: &[String]) -> (outcome: Result<Option<EditRequest>, StoreError>)
        ensures
            !all_indices(texts(args@)) ==> outcome == Err::<Option<EditRequest>, StoreError>(
                StoreError::Usage(Usage::NotAnIndex(Command::Edit)),
            ),
            all_indices(texts(args@)) ==> ({
                let positions = positions_to_edit(self@.lines.len(), texts(args@));
                match first_corrupt_visit(self@.lines, positions) {
                    Some(error) => outcome == Err::<Option<EditRequest>, StoreError>(error),
                    None => if positions.len() == 0 {
                        outcome == Ok::<Option<EditRequest>, StoreError>(None)
                    } else {
                        &&& outcome matches Ok(Some(request))
                        &&& request.positions@ == positions
                        &&& request.buffer@ == EDIT_NOTE@ + text_of(texts_at(self@.lines, positions))
                    },
                }
            }),
    {
        let ghost lines = texts(self.tasks@);
        let ghost names = texts(args@);
        let n = self.tasks.len();
        let mut positions: Vec<usize> = Vec::new();
        if args.len() == 0 {
            let mut j: usize = 0;
            while j < n
                invariant
                    j <= n,
                    positions@ == every_position(j as nat),
                decreases n - j,
            {
                positions.push(j);
                assert(positions@ =~= every_position((j + 1) as nat));
                j += 1;
            }
        } else {
            let wanted = match parse_indices(args) {
                Some(wanted) => wanted,
                None => {
                    return Err(StoreError::Usage(Usage::NotAnIndex(Command::Edit)));
                },
            };
            let mut k: usize = 0;
            proof {
                assert(names.take(0) =~= Seq::<Seq<char>>::empty());
            }
            while k < wanted.len()
                invariant
                    k <= wanted.len(),
                    wanted.len() == names.len(),
                    forall|m: int|
                        0 <= m < names.len() ==> index_of(names[m]) == Some(#[trigger] wanted[m]),
                    positions@ == positions_named(n as nat, names.take(k as int)),
                decreases wanted.len() - k,
            {
                let index = wanted[k];
                proof {
                    assert(names.take(k + 1).drop_last() =~= names.take(k as int));
                    assert(names.take(k + 1).last() == names[k as int]);
                }
                if 1 <= index && index <= n {
                    positions.push(index - 1);
                }
                k += 1;
            }
            proof {
                assert(names.take(names.len() as int) =~= names);
            }
        }
        assert(positions@ == positions_to_edit(lines.len(), names));
        match check_visits(&self.tasks, positions.as_slice()) {
            Some(error) => {
                return Err(error);
            },
            None => {},
        }
        let mut buffer = EDIT_NOTE.to_owned();
        let mut k: usize = 0;
        proof {
            assert(positions@.take(0) =~= Seq::<usize>::empty());
            assert(buffer@ =~= EDIT_NOTE@ + text_of(texts_at(lines, positions@.take(0))));
        }
        while k < positions.len()
            invariant
                k <= positions.len(),
                n == self.tasks.len(),
                lines == texts(self.tasks@),
                names == texts(args@),
                positions@ == positions_to_edit(lines.len(), names),
                first_corrupt_visit(lines, positions@) is None,
                buffer@ == EDIT_NOTE@ + text_of(texts_at(lines, positions@.take(k as int))),
            decreases positions.len() - k,
        {
            let p = positions[k];
            let ghost before = buffer@;
            proof {
                lemma_positions_in_range(lines.len(), names, k as int);
                lemma_visits_are_valid(lines, positions@, k as int);
                lemma_markers_differ(lines[p as int]);
                let shown = texts_at(lines, positions@.take(k + 1));
                assert(shown.drop_last() =~= texts_at(lines, positions@.take(k as int)));
                assert(shown.last() == line_body(lines[p as int]));
            }
            match Task::parse(self.tasks[p].as_str()) {
                Some(task) => {
                    buffer.append(task.text.as_str());
                    buffer.push('\n');
                    proof {
                        assert(buffer@ =~= before + line_body(lines[p as int]) + seq!['\n']);
                        assert(buffer@ =~= EDIT_NOTE@ + text_of(
                            texts_at(lines, positions@.take(k + 1)),
                        ));
                    }
                },
                None => {},
            }
            k += 1;
        }
        proof {
            assert(positions@.take(positions.len() as int) =~= positions@);
        }
        if positions.len() == 0 {
            Ok(None)
        } else {
            Ok(Some(EditRequest { positions, buffer }))
        }
    }

    /// Gives the tasks at `positions` (counted from 0) the texts that came
    /// back from the editor and plans the rewrite of the file. `edited` is
    /// the whole text of the editor, note included. Nothing changes where
    /// the editor gave back too few lines or a line to edit is no task
    /// record.
    pub fn apply_edit(&mut self, positions: &[usize], edited: &str) -> (outcome: Result<
        WritePlan,
        StoreError,
    >)
        ensures
            edited_texts(edited@).len() < positions.len() ==> outcome == Err::<
                WritePlan,
                StoreError,
            >(StoreError::Usage(Usage::MissingLines)) && *final(self) == *old(self),
            edited_texts(edited@).len() >= positions.len() ==> match first_corrupt_visit(
                old(self)@.lines,
                positions@,
            ) {
                Some(error) => outcome == Err::<WritePlan, StoreError>(error) && *final(self)
                    == *old(self),
                None => final(self)@ == (TodoView {
                    lines: lines_edited(old(self)@.lines, positions@, edited_texts(edited@)),
                    ..old(self)@
                }) && is_planned_write(outcome, final(self)@, false),
            },
    {
        let ghost lines = texts(self.tasks@);
        let ghost new_texts = edited_texts(edited@);
        let fresh = read_lines(edited);
        proof {
            assert(texts(fresh@).len() == fresh@.len());
        }
        let given: usize = if fresh.len() >= 2 {
            fresh.len() - 2
        } else {
            0
        };
        if given < positions.len() {
            return Err(StoreError::Usage(Usage::MissingLines));
        }
        match check_visits(&self.tasks, positions) {
            Some(error) => {
                return Err(error);
            },
            None => {},
        }
        let n = self.tasks.len();
        let mut k: usize = 0;
        proof {
            assert(positions@.take(0) =~= Seq::<usize>::empty());
        }
        while k < positions.len()
            invariant
                k <= positions.len(),
                n == self.tasks.len(),
                n == lines.len(),
                self.n_tasks == old(self).n_tasks,
                self.file_path == old(self).file_path,
                positions.len() > 0 ==> fresh.len() >= 2 && fresh.len() - 2 >= positions.len(),
                positions.len() > 0 ==> new_texts == texts(fresh@).skip(2),
                first_corrupt_visit(lines, positions@) is None,
                texts(self.tasks@) == lines_edited(lines, positions@.take(k as int), new_texts),
            decreases positions.len() - k,
        {
            let p = positions[k];
            let ghost before = texts(self.tasks@);
            proof {
                assert(positions@.take(k + 1).drop_last() =~= positions@.take(k as int));
                assert(positions@.take(k + 1).last() == p);
                assert(new_texts[k as int] == fresh@[k + 2]@);
            }
            if p < n {
                proof {
                    lemma_visits_are_valid(lines, positions@, k as int);
                    lemma_markers_differ(lines[p as int]);
                    lemma_edit_keeps_marker(lines, positions@.take(k as int), new_texts, p as int);
                    lemma_markers_differ(before[p as int]);
                }
                match completion(self.tasks[p].as_str()) {
                    Some(done) => {
                        let mut line = marker_text(done);
                        line.append(fresh[k + 2].as_str());
                        proof {
                            assert(line@ =~= retext_line(lines[p as int], new_texts[k as int]));
                        }
                        self.tasks.set(p, line);
                        proof {
                            assert(texts(self.tasks@) =~= before.update(
                                p as int,
                                retext_line(lines[p as int], new_texts[k as int]),
                            ));
                        }
                    },
                    None => {},
                }
            }
            k += 1;
        }
        proof {
            assert(positions@.take(positions.len() as int) =~= positions@);
        }
        self.write_plan(false)
    }
}

/// Where no visit is corrupt, the line at each position that lies in the
/// list is a task record.
proof fn lemma_visits_are_valid(lines: Seq<Seq<char>>, positions: Seq<usize>, k: int)
    requires
        first_corrupt_visit(lines, positions) is None,
        0 <= k < positions.len(),
    ensures
        positions[k] < lines.len() ==> is_valid_line(lines[positions[k] as int]),
    decreases positions.len(),
{
    if k > 0 {
        lemma_visits_are_valid(lines, positions.skip(1), k - 1);
    }
}

/// Every place that `edit` picks lies in the list.
proof fn lemma_positions_in_range(len: nat, args: Seq<Seq<char>>, k: int)
    requires
        len <= usize::MAX,
        0 <= k < positions_to_edit(len, args).len(),
    ensures
        positions_to_edit(len, args)[k] < len,
{
    if args.len() > 0 {
        lemma_named_positions_in_range(len, args, k);
    }
}

/// Every place that an argument names lies in the list.
proof fn lemma_named_positions_in_range(len: nat, args: Seq<Seq<char>>, k: int)
    requires
        len <= usize::MAX,
        0 <= k < positions_named(len, args).len(),
    ensures
        positions_named(len, args)[k] < len,
    decreases args.len(),
{
    if args.len() > 0 {
        let front = positions_named(len, args.drop_last());
        if k < front.len() {
            lemma_named_positions_in_range(len, args.drop_last(), k);
        }
    }
}

/// An edit leaves the length of the list and the marker of every line as
/// they were.
proof fn lemma_edit_keeps_marker(
    lines: Seq<Seq<char>>,
    positions: Seq<usize>,
    new_texts: Seq<Seq<char>>,
    p: int,
)
    requires
        0 <= p < lines.len(),
        lines[p].len() >= 4,
    ensures
        lines_edited(lines, positions, new_texts).len() == lines.len(),
        lines_edited(lines, positions, new_texts)[p].len() >= 4,
        lines_edited(lines, positions, new_texts)[p].take(4) == lines[p].take(4),
    decreases positions.len(),
{
    if positions.len() > 0 {
        lemma_edit_keeps_marker(lines, positions.drop_last(), new_texts, p);
        let q = positions.last() as int;
        if q < lines.len() {
            lemma_edit_keeps_length(lines, positions.drop_last(), new_texts);
            if q == p {
                let text = new_texts[positions.len() - 1];
                assert(retext_line(lines[p], text).take(4) =~= lines[p].take(4));
            }
        }
    }
}

/// An edit leaves the length of the list as it was.
proof fn lemma_edit_keeps_length(
    lines: Seq<Seq<char>>,
    positions: Seq<usize>,
    new_texts: Seq<Seq<char>>,
)
    ensures
        lines_edited(lines, positions, new_texts).len() == lines.len(),
    decreases positions.len(),
{
    if positions.len() > 0 {
        lemma_edit_keeps_length(lines, positions.drop_last(), new_texts);
    }
}

} // verus!
