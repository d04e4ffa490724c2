//! The listing for the terminal: a number in bold before each task, a
//! finished task struck through.

use crate::error::StoreError;
use crate::line::{is_done_line, is_valid_line, lemma_markers_differ, line_body, Task};
use crate::number::{decimal, decimal_text, is_digit, lemma_decimal_text_is_number};
use crate::store::{all_valid, corruption, lemma_first_corrupt, Todo};
use crate::text::texts;
use colored::Colorize;
use vstd::prelude::*;

verus! {

/// The escape sequence that switches a style of the terminal on: the
/// escape character, `[`, the style's code and `m`.
pub open spec fn style_on(code: char) -> Seq<char> {
    seq!['\u{1b}', '[', code, 'm']
}

/// The escape sequence that switches every style off.
pub open spec fn style_off() -> Seq<char> {
    seq!['\u{1b}', '[', '0', 'm']
}

/// `text` holds the escape sequence that switches every style off.
pub open spec fn holds_style_off(text: Seq<char>) -> bool {
    exists|i: int| 0 <= i && i + 4 <= text.len() && #[trigger] text.subrange(i, i + 4) == style_off()
}

/// `shown` is `plain` as the terminal library renders it in the style
/// `code`: untouched where colours are switched off, else between the
/// sequence for the style and the one that ends it.
pub open spec fn is_styled(shown: Seq<char>, plain: Seq<char>, code: char) -> bool {
    shown == plain || shown == style_on(code) + plain + style_off()
}

/// One line of the listing: the number, a space, the text.
pub open spec fn listing_line(number: Seq<char>, text: Seq<char>) -> Seq<char> {
    number + seq![' '] + text
}

/// `shown` lists the task record `line` at `position` (counted from 0):
/// the position plus one in bold, a space, and the task's text, struck
/// through where the task is finished. Of a finished task whose text holds
/// the sequence that switches styles off, only the number is stated.
pub open spec fn is_listing_of(shown: Seq<char>, position: int, line: Seq<char>) -> bool {
    exists|number: Seq<char>, text: Seq<char>|
        {
            &&& shown == #[trigger] listing_line(number, text)
            &&& is_styled(number, decimal_text((position + 1) as nat), '1')
            &&& if is_done_line(line) {
                holds_style_off(line_body(line)) || is_styled(text, line_body(line), '9')
            } else {
                text == line_body(line)
            }
        }
}

/// Renders `text` in bold by `colored::Colorize::bold` and the `Display` of
/// the `ColoredString` that it returns. Whether that library colours at all
/// hangs on the environment of the process, so the result is one of two:
/// `text` itself, or `text` between `ESC[1m` and `ESC[0m`. Where `text`
/// holds `ESC[0m` the library rewrites it, and nothing is claimed.
#[verifier::external_body]
fn bold(text: &str) -> (shown: String)
    ensures
        !holds_style_off(text@) ==> is_styled(shown@, text@, '1'),
{
    format!("{}", text.bold())
}

/// Renders `text` struck through by `colored::Colorize::strikethrough` and
/// the `Display` of the `ColoredString` that it returns. The result is one
/// of two, as the environment of the process decides: `text` itself, or
/// `text` between `ESC[9m` and `ESC[0m`. Where `text` holds `ESC[0m` the
/// library rewrites it, and nothing is claimed.
#[verifier::external_body]
fn strikethrough(text: &str) -> (shown: String)
    ensures
        !holds_style_off(text@) ==> is_styled(shown@, text@, '9'),
{
    format!("{}", text.strikethrough())
}

/// The digits of a number hold no escape sequence.
proof fn lemma_decimal_text_is_plain(n: nat)
    ensures
        !holds_style_off(decimal_text(n)),
{
    lemma_decimal_text_is_number(n);
    let digits = decimal_text(n);
    assert forall|i: int| 0 <= i && i + 4 <= digits.len() implies #[trigger] digits.subrange(
        i,
        i + 4,
    ) != style_off() by {
        assert(is_digit(digits[i]));
        assert(digits.subrange(i, i + 4)[0] == digits[i]);
        assert(style_off()[0] == '\u{1b}');
    }
}

/// Puts a number and a text together as one line of the listing.
pub fn list_line(number: &str, text: &str) -> (line: String)
    ensures
        line@ == listing_line(number@, text@),
{
    let mut line = number.to_owned();
    line.push(' ');
    line.append(text);
    assert(line@ =~= listing_line(number@, text@));
    line
}

impl Todo {
    /// The listing of all tasks, one line for each, in the order of the
    /// list. No line is given where one of the list is no task record.
    pub fn list(&self) -> (outcome: Result<Vec<String>, StoreError>)
        ensures
            match corruption(self@.lines) {
                Some(error) => outcome == Err::<Vec<String>, StoreError>(error),
                None => outcome matches Ok(shown) && shown.len() == self@.lines.len()
                    && forall|i: int|
                    0 <= i < shown.len() ==> is_listing_of(
                        #[trigger] shown[i]@,
                        i,
                        self@.lines[i],
                    ),
            },
            (exists|i: int| 0 <= i < self@.lines.len() && (#[trigger] self@.lines[i]).len() < 4)
                ==> outcome is Err && outcome->Err_0 is CorruptFile,
    {
        let ghost lines = texts(self.tasks@);
        let n = self.tasks.len();
        let mut shown: Vec<String> = Vec::new();
        let mut j: usize = 0;
        while j < n
            invariant
                j <= n,
                n == self.tasks.len(),
                lines == texts(self.tasks@),
                shown.len() == j,
                all_valid(lines.take(j as int)),
                forall|i: int| 0 <= i < j ==> is_listing_of(#[trigger] shown[i]@, i, lines[i]),
            decreases n - j,
        {
            proof {
                lemma_markers_differ(lines[j as int]);
                lemma_decimal_text_is_plain((j + 1) as nat);
            }
            match Task::parse(self.tasks[j].as_str()) {
                None => {
                    proof {
                        lemma_first_corrupt(lines, j as int);
                    }
                    return Err(StoreError::CorruptFile { line: j + 1 });
                },
                Some(task) => {
                    let number = bold(decimal(j + 1).as_str());
                    let text = if task.done {
                        strikethrough(task.text.as_str())
                    } else {
                        task.text
                    };
                    let line = list_line(number.as_str(), text.as_str());
                    proof {
                        assert(line@ == listing_line(number@, text@));
                        assert(is_listing_of(line@, j as int, lines[j as int]));
                    }
                    shown.push(line);
                },
            }
            proof {
                assert forall|m: int| 0 <= m < j + 1 implies is_valid_line(
                    #[trigger] lines.take(j + 1)[m],
                ) by {
                    if m < j {
                        assert(lines.take(j as int)[m] == lines[m]);
                    }
                }
            }
            j += 1;
        }
        proof {
            assert(lines.take(n as int) =~= lines);
        }
        Ok(shown)
    }
}

} // verus!
