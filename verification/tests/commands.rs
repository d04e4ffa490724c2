use std::path::PathBuf;
use todo::{Command, StoreError, Todo, Usage, WritePlan};

fn strings(items: &[&str]) -> Vec<String> {
    items.iter().map(|s| s.to_string()).collect()
}

fn store(content: &str) -> Todo {
    Todo::new(PathBuf::from("/tmp/.todo"), content)
}

fn rewrite(text: &str) -> Result<WritePlan, StoreError> {
    Ok(WritePlan { append: false, text: text.to_string() })
}

fn append(text: &str) -> Result<WritePlan, StoreError> {
    Ok(WritePlan { append: true, text: text.to_string() })
}

#[test]
fn new_reads_the_lines_and_keeps_their_number() {
    let todo = store("[ ] a\n[*] b\n");
    assert_eq!(todo.tasks, strings(&["[ ] a", "[*] b"]));
    assert_eq!(todo.n_tasks, 2);
    assert_eq!(todo.file_path, PathBuf::from("/tmp/.todo"));
}

#[test]
fn new_on_an_empty_file_gives_an_empty_list() {
    let todo = store("");
    assert!(todo.tasks.is_empty());
    assert_eq!(todo.n_tasks, 0);
}

#[test]
fn new_does_not_judge_the_lines() {
    let todo = store("nonsense\n\n[ ]\n");
    assert_eq!(todo.tasks, strings(&["nonsense", "", "[ ]"]));
    assert_eq!(todo.n_tasks, 3);
}

#[test]
fn add_on_an_empty_list() {
    let mut todo = store("");
    let plan = todo.add(&strings(&["x", "y"]));
    assert_eq!(todo.tasks, strings(&["[ ] x", "[ ] y"]));
    assert_eq!(plan, append("[ ] x\n[ ] y\n"));
    let file = plan.unwrap().text;
    let again = store(&file);
    assert_eq!(again.tasks, todo.tasks);
}

#[test]
fn add_appends_pending_tasks_behind_the_others() {
    let mut todo = store("[*] a\n[ ] b\n");
    let plan = todo.add(&strings(&["c d", ""]));
    assert_eq!(todo.tasks, strings(&["[*] a", "[ ] b", "[ ] c d", "[ ] "]));
    assert_eq!(todo.n_tasks, 2);
    assert_eq!(plan, append("[ ] c d\n[ ] \n"));
}

#[test]
fn add_then_reload_gives_the_list_in_memory() {
    let before = "[*] a\r\n[ ] b\n\n";
    let mut todo = store(before);
    let plan = todo.add(&strings(&["one", "[*] two", "three\rfour"])).unwrap();
    assert!(plan.append);
    let after = format!("{}{}", before, plan.text);
    assert_eq!(store(&after).tasks, todo.tasks);
    assert_eq!(store(&after).tasks.len(), 6);
}

#[test]
fn add_behind_an_open_last_line_is_not_read_back_as_it_stands_in_memory() {
    let before = "[ ] a";
    let mut todo = store(before);
    let plan = todo.add(&strings(&["b"])).unwrap();
    assert_eq!(todo.tasks, strings(&["[ ] a", "[ ] b"]));
    let after = format!("{}{}", before, plan.text);
    assert_eq!(store(&after).tasks, strings(&["[ ] a[ ] b"]));
}

#[test]
fn add_without_a_text_is_a_usage_error() {
    let mut todo = store("[ ] a\n");
    let outcome = todo.add(&[]);
    assert_eq!(outcome, Err(StoreError::Usage(Usage::MissingArgument(Command::Add))));
    assert_eq!(todo.tasks, strings(&["[ ] a"]));
}

#[test]
fn add_after_the_list_has_shrunk_is_a_logic_error() {
    let mut todo = store("[ ] a\n[ ] b\n[ ] c\n");
    todo.remove(&strings(&["1", "2"])).unwrap();
    let outcome = todo.add(&strings(&["d"]));
    assert_eq!(outcome, Err(StoreError::Logic));
    assert_eq!(todo.tasks, strings(&["[ ] c", "[ ] d"]));
}

#[test]
fn write_plan_appends_only_what_is_new() {
    let mut todo = store("[ ] a\n");
    assert_eq!(todo.write_plan(true), Err(StoreError::Logic));
    assert_eq!(todo.write_plan(false), rewrite("[ ] a\n"));
    todo.tasks.push("[*] b".to_string());
    todo.tasks.push("[ ] c".to_string());
    assert_eq!(todo.write_plan(true), append("[*] b\n[ ] c\n"));
    assert_eq!(todo.write_plan(false), rewrite("[ ] a\n[*] b\n[ ] c\n"));
}

#[test]
fn write_plan_of_an_empty_list() {
    let todo = store("");
    assert_eq!(todo.write_plan(false), rewrite(""));
    assert_eq!(todo.write_plan(true), Err(StoreError::Logic));
}

#[test]
fn remove_resolves_every_index_against_the_list_as_it_was() {
    let mut todo = store("A\nB\nC\nD\n");
    let plan = todo.remove(&strings(&["1", "3"]));
    assert_eq!(todo.tasks, strings(&["B", "D"]));
    assert_eq!(plan, rewrite("B\nD\n"));
}

#[test]
fn remove_does_not_mind_the_order_of_its_arguments() {
    let mut todo = store("A\nB\nC\nD\n");
    todo.remove(&strings(&["4", "1"])).unwrap();
    assert_eq!(todo.tasks, strings(&["B", "C"]));
    let mut todo = store("A\nB\nC\nD\n");
    todo.remove(&strings(&["3", "4", "2"])).unwrap();
    assert_eq!(todo.tasks, strings(&["A"]));
}

#[test]
fn remove_of_the_same_index_twice_removes_one_task() {
    let mut todo = store("A\nB\nC\n");
    todo.remove(&strings(&["2", "2"])).unwrap();
    assert_eq!(todo.tasks, strings(&["A", "C"]));
}

#[test]
fn remove_ignores_indices_beyond_the_list() {
    let mut todo = store("A\nB\n");
    let plan = todo.remove(&strings(&["0", "3", "18446744073709551615"]));
    assert_eq!(todo.tasks, strings(&["A", "B"]));
    assert_eq!(plan, rewrite("A\nB\n"));
    todo.remove(&strings(&["7", "2"])).unwrap();
    assert_eq!(todo.tasks, strings(&["A"]));
}

#[test]
fn remove_of_every_task_leaves_an_empty_file() {
    let mut todo = store("A\nB\n");
    assert_eq!(todo.remove(&strings(&["2", "1"])), rewrite(""));
    assert!(todo.tasks.is_empty());
    assert_eq!(todo.n_tasks, 2);
}

#[test]
fn remove_does_not_read_the_markers() {
    let mut todo = store("nonsense\n[ ] b\n");
    todo.remove(&strings(&["2"])).unwrap();
    assert_eq!(todo.tasks, strings(&["nonsense"]));
}

#[test]
fn remove_without_an_index_is_a_usage_error() {
    let mut todo = store("A\n");
    assert_eq!(
        todo.remove(&[]),
        Err(StoreError::Usage(Usage::MissingArgument(Command::Remove)))
    );
    assert_eq!(todo.tasks, strings(&["A"]));
}

#[test]
fn remove_with_a_word_for_an_index_is_a_usage_error() {
    let mut todo = store("A\nB\n");
    assert_eq!(
        todo.remove(&strings(&["1", "two"])),
        Err(StoreError::Usage(Usage::NotAnIndex(Command::Remove)))
    );
    assert_eq!(todo.tasks, strings(&["A", "B"]));
}

#[test]
fn done_then_undone_restores_the_list() {
    let mut todo = store("[ ] A\n[ ] B\n");
    let plan = todo.done(&strings(&["2"]));
    assert_eq!(todo.tasks, strings(&["[ ] A", "[*] B"]));
    assert_eq!(plan, rewrite("[ ] A\n[*] B\n"));
    let plan = todo.undone(&strings(&["2"]));
    assert_eq!(todo.tasks, strings(&["[ ] A", "[ ] B"]));
    assert_eq!(plan, rewrite("[ ] A\n[ ] B\n"));
}

#[test]
fn done_leaves_the_text_untouched() {
    let mut todo = store("[ ] [ ] *\u{e9}* \n[*] b\n");
    todo.done(&strings(&["1", "2"])).unwrap();
    assert_eq!(todo.tasks, strings(&["[*] [ ] *\u{e9}* ", "[*] b"]));
}

#[test]
fn done_marks_several_tasks_and_the_same_task_twice() {
    let mut todo = store("[ ] a\n[ ] b\n[ ] c\n");
    todo.done(&strings(&["3", "1", "3"])).unwrap();
    assert_eq!(todo.tasks, strings(&["[*] a", "[ ] b", "[*] c"]));
}

#[test]
fn done_ignores_indices_beyond_the_list() {
    let mut todo = store("[ ] a\n");
    let plan = todo.done(&strings(&["0", "2", "+1"]));
    assert_eq!(todo.tasks, strings(&["[*] a"]));
    assert_eq!(plan, rewrite("[*] a\n"));
}

#[test]
fn done_beyond_the_list_does_not_read_corrupt_lines() {
    let mut todo = store("oops\n[ ] b\n");
    assert_eq!(todo.done(&strings(&["2", "5"])), rewrite("oops\n[*] b\n"));
}

#[test]
fn done_without_an_index_is_a_usage_error() {
    let mut todo = store("[ ] a\n");
    assert_eq!(todo.done(&[]), Err(StoreError::Usage(Usage::MissingArgument(Command::Done))));
    assert_eq!(
        todo.undone(&[]),
        Err(StoreError::Usage(Usage::MissingArgument(Command::Undone)))
    );
}

#[test]
fn done_with_a_word_for_an_index_changes_nothing() {
    let mut todo = store("[ ] a\n[ ] b\n");
    assert_eq!(
        todo.done(&strings(&["1", "x"])),
        Err(StoreError::Usage(Usage::NotAnIndex(Command::Done)))
    );
    assert_eq!(todo.tasks, strings(&["[ ] a", "[ ] b"]));
    assert_eq!(
        todo.undone(&strings(&["-1"])),
        Err(StoreError::Usage(Usage::NotAnIndex(Command::Undone)))
    );
}

#[test]
fn done_on_a_corrupt_line_names_the_line() {
    let mut todo = store("[ ] a\noops\n[ ] c\n");
    assert_eq!(todo.done(&strings(&["1", "2"])), Err(StoreError::CorruptFile { line: 2 }));
    assert_eq!(todo.tasks, strings(&["[ ] a", "oops", "[ ] c"]));
    assert_eq!(todo.undone(&strings(&["2"])), Err(StoreError::CorruptFile { line: 2 }));
}

#[test]
fn the_first_faulty_argument_decides_the_error() {
    let mut todo = store("[ ] a\noops\n");
    assert_eq!(todo.done(&strings(&["2", "x"])), Err(StoreError::CorruptFile { line: 2 }));
    assert_eq!(
        todo.done(&strings(&["x", "2"])),
        Err(StoreError::Usage(Usage::NotAnIndex(Command::Done)))
    );
}

#[test]
fn sort_puts_pending_tasks_first_and_keeps_the_order_in_each_group() {
    let mut todo = store("[*] A\n[ ] B\n[*] C\n[ ] D\n");
    let plan = todo.sort();
    assert_eq!(todo.tasks, strings(&["[ ] B", "[ ] D", "[*] A", "[*] C"]));
    assert_eq!(plan, rewrite("[ ] B\n[ ] D\n[*] A\n[*] C\n"));
}

#[test]
fn sort_of_a_sorted_list_changes_nothing() {
    let mut todo = store("[ ] a\n[ ] b\n[*] c\n");
    todo.sort().unwrap();
    assert_eq!(todo.tasks, strings(&["[ ] a", "[ ] b", "[*] c"]));
    let mut todo = store("");
    assert_eq!(todo.sort(), rewrite(""));
}

#[test]
fn sort_keeps_equal_tasks_apart() {
    let mut todo = store("[*] x\n[ ] x\n[*] x\n[ ] y\n[ ] x\n");
    todo.sort().unwrap();
    assert_eq!(todo.tasks, strings(&["[ ] x", "[ ] y", "[ ] x", "[*] x", "[*] x"]));
}

#[test]
fn sort_on_a_corrupt_line_changes_nothing() {
    let mut todo = store("[*] a\n[ ] b\n[x] c\nd\n");
    assert_eq!(todo.sort(), Err(StoreError::CorruptFile { line: 3 }));
    assert_eq!(todo.tasks, strings(&["[*] a", "[ ] b", "[x] c", "d"]));
}

#[test]
fn raw_done_gives_the_texts_of_the_finished_tasks() {
    let todo = store("[*] A\n[ ] B\n[*] C\n");
    assert_eq!(todo.raw(&strings(&["done"])), Ok(strings(&["A", "C"])));
}

#[test]
fn raw_undone_gives_the_texts_of_the_pending_tasks() {
    let todo = store("[*] A\n[ ] B\n[*] C\n[ ] \n");
    assert_eq!(todo.raw(&strings(&["undone"])), Ok(strings(&["B", ""])));
}

#[test]
fn raw_with_another_word_gives_nothing() {
    let todo = store("[*] A\n[ ] B\n");
    assert_eq!(todo.raw(&strings(&["all"])), Ok(Vec::new()));
    assert_eq!(todo.raw(&strings(&["Done"])), Ok(Vec::new()));
    assert_eq!(todo.raw(&strings(&[""])), Ok(Vec::new()));
}

#[test]
fn raw_takes_exactly_one_argument() {
    let todo = store("[*] A\n");
    assert_eq!(todo.raw(&[]), Err(StoreError::Usage(Usage::FilterCount)));
    assert_eq!(
        todo.raw(&strings(&["done", "undone"])),
        Err(StoreError::Usage(Usage::FilterCount))
    );
}

#[test]
fn raw_on_a_corrupt_line_gives_no_text() {
    let todo = store("[*] A\nB\n[*] C\n");
    assert_eq!(todo.raw(&strings(&["done"])), Err(StoreError::CorruptFile { line: 2 }));
    assert_eq!(todo.raw(&strings(&["other"])), Err(StoreError::CorruptFile { line: 2 }));
}

#[test]
fn raw_does_not_change_the_list() {
    let todo = store("[*] A\n[ ] B\n");
    todo.raw(&strings(&["done"])).unwrap();
    assert_eq!(todo.tasks, strings(&["[*] A", "[ ] B"]));
    assert_eq!(todo.n_tasks, 2);
}

#[test]
fn a_rewrite_is_read_back_as_the_list_in_memory() {
    let mut todo = store("[*] A\r\n[ ] B\n[*] C\n[ ] D");
    todo.sort().unwrap();
    todo.done(&strings(&["1"])).unwrap();
    let plan = todo.remove(&strings(&["2"])).unwrap();
    assert!(!plan.append);
    assert_eq!(store(&plan.text).tasks, todo.tasks);
    assert_eq!(todo.tasks, strings(&["[*] B", "[*] A", "[*] C"]));
}
