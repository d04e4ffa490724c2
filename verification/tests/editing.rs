use std::path::PathBuf;
use todo::edit::EDIT_NOTE;
use todo::{Command, EditRequest, StoreError, Todo, Usage, WritePlan};

fn strings(items: &[&str]) -> Vec<String> {
    items.iter().map(|s| s.to_string()).collect()
}

fn store(content: &str) -> Todo {
    Todo::new(PathBuf::from("/tmp/.todo"), content)
}

fn request(positions: &[usize], texts: &str) -> Result<Option<EditRequest>, StoreError> {
    Ok(Some(EditRequest {
        positions: positions.to_vec(),
        buffer: format!("{}{}", EDIT_NOTE, texts),
    }))
}

#[test]
fn the_note_is_two_lines() {
    assert_eq!(EDIT_NOTE, "# DO NOT DELETE TASKS IN HERE! USE THE 'rm' COMMAND INSTEAD.\n\n");
}

#[test]
fn edit_without_an_argument_takes_every_task() {
    let todo = store("[ ] a\n[*] b\n[ ] c\n");
    assert_eq!(todo.edit(&[]), request(&[0, 1, 2], "a\nb\nc\n"));
}

#[test]
fn edit_takes_the_named_tasks_in_the_order_of_the_arguments() {
    let todo = store("[ ] a\n[*] b\n[ ] c\n");
    assert_eq!(todo.edit(&strings(&["3", "1"])), request(&[2, 0], "c\na\n"));
    assert_eq!(todo.edit(&strings(&["2", "2"])), request(&[1, 1], "b\nb\n"));
}

#[test]
fn edit_ignores_indices_beyond_the_list() {
    let todo = store("[ ] a\n[*] b\n");
    assert_eq!(todo.edit(&strings(&["0", "2", "3"])), request(&[1], "b\n"));
}

#[test]
fn edit_with_nothing_to_edit_asks_for_no_editor() {
    assert_eq!(store("").edit(&[]), Ok(None));
    assert_eq!(store("[ ] a\n").edit(&strings(&["2"])), Ok(None));
}

#[test]
fn edit_with_a_word_for_an_index_is_a_usage_error() {
    let todo = store("[ ] a\n");
    assert_eq!(
        todo.edit(&strings(&["1", "x"])),
        Err(StoreError::Usage(Usage::NotAnIndex(Command::Edit)))
    );
}

#[test]
fn edit_of_a_corrupt_line_names_the_line() {
    let todo = store("[ ] a\noops\n[ ] c\n");
    assert_eq!(todo.edit(&[]), Err(StoreError::CorruptFile { line: 2 }));
    assert_eq!(todo.edit(&strings(&["3", "2"])), Err(StoreError::CorruptFile { line: 2 }));
    assert_eq!(todo.edit(&strings(&["3", "1"])), request(&[2, 0], "c\na\n"));
}

#[test]
fn apply_edit_gives_each_task_its_new_text_and_keeps_its_marker() {
    let mut todo = store("[ ] a\n[*] b\n[ ] c\n");
    let edited = format!("{}{}", EDIT_NOTE, "new c\nnew b\n");
    let plan = todo.apply_edit(&[2, 1], &edited);
    assert_eq!(todo.tasks, strings(&["[ ] a", "[*] new b", "[ ] new c"]));
    assert_eq!(
        plan,
        Ok(WritePlan { append: false, text: "[ ] a\n[*] new b\n[ ] new c\n".to_string() })
    );
}

#[test]
fn apply_edit_skips_two_lines_whatever_they_hold() {
    let mut todo = store("[ ] a\n");
    todo.apply_edit(&[0], "first\nsecond\nthird\nfourth\n").unwrap();
    assert_eq!(todo.tasks, strings(&["[ ] third"]));
}

#[test]
fn apply_edit_lets_the_later_text_stay_where_a_task_comes_twice() {
    let mut todo = store("[*] a\n");
    todo.apply_edit(&[0, 0], "#\n\none\ntwo\n").unwrap();
    assert_eq!(todo.tasks, strings(&["[*] two"]));
}

#[test]
fn apply_edit_ignores_positions_beyond_the_list() {
    let mut todo = store("[ ] a\n[ ] b\n");
    todo.apply_edit(&[5, 1], "#\n\none\ntwo\n").unwrap();
    assert_eq!(todo.tasks, strings(&["[ ] a", "[ ] two"]));
}

#[test]
fn apply_edit_with_too_few_lines_changes_nothing() {
    let mut todo = store("[ ] a\n[ ] b\n");
    assert_eq!(
        todo.apply_edit(&[0, 1], "#\n\nonly one\n"),
        Err(StoreError::Usage(Usage::MissingLines))
    );
    assert_eq!(
        todo.apply_edit(&[0], "#\n"),
        Err(StoreError::Usage(Usage::MissingLines))
    );
    assert_eq!(todo.apply_edit(&[0], ""), Err(StoreError::Usage(Usage::MissingLines)));
    assert_eq!(todo.tasks, strings(&["[ ] a", "[ ] b"]));
}

#[test]
fn apply_edit_with_no_position_rewrites_the_list_as_it_is() {
    let mut todo = store("[ ] a\n");
    assert_eq!(
        todo.apply_edit(&[], ""),
        Ok(WritePlan { append: false, text: "[ ] a\n".to_string() })
    );
}

#[test]
fn apply_edit_on_a_corrupt_line_changes_nothing() {
    let mut todo = store("[ ] a\noops\n");
    assert_eq!(
        todo.apply_edit(&[0, 1], "#\n\none\ntwo\n"),
        Err(StoreError::CorruptFile { line: 2 })
    );
    assert_eq!(todo.tasks, strings(&["[ ] a", "oops"]));
}

#[test]
fn an_edit_that_changes_nothing_leaves_the_list() {
    let mut todo = store("[ ] a\n[*] b\n");
    let wanted = todo.edit(&[]).unwrap().unwrap();
    todo.apply_edit(&wanted.positions, &wanted.buffer).unwrap();
    assert_eq!(todo.tasks, strings(&["[ ] a", "[*] b"]));
}
