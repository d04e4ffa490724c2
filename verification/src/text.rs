//! The file format: a text is a run of lines, each closed by a line feed.

use vstd::prelude::*;
use vstd::std_specs::iter::IteratorSpec;

verus! {

/// `String::push`, which appends the given character to the end of the
/// string and leaves the rest of it as it was.
pub assume_specification[ String::push ](s: &mut String, ch: char)
    ensures
        final(s)@ == old(s)@.push(ch),
;

/// What a vector of strings holds, as a sequence of character sequences.
pub open spec fn texts(strings: Seq<String>) -> Seq<Seq<char>> {
    strings.map_values(|s: String| s@)
}

/// The position of the first line feed in `text`, or the length of `text`
/// where it holds none.
pub open spec fn first_break(text: Seq<char>) -> nat
    decreases text.len(),
{
    if text.len() == 0 || text[0] == '\n' {
        0
    } else {
        1 + first_break(text.skip(1))
    }
}

/// `line` without the carriage return at its end, if it has one there.
pub open spec fn without_cr(line: Seq<char>) -> Seq<char> {
    if line.len() > 0 && line.last() == '\r' {
        line.drop_last()
    } else {
        line
    }
}

/// The lines of a text. A line ends at a line feed; a carriage return just
/// before the line feed belongs to the line ending. What follows the last
/// line feed is a line of its own unless it is empty.
pub open spec fn lines_of(text: Seq<char>) -> Seq<Seq<char>>
    decreases text.len(),
{
    if text.len() == 0 {
        Seq::empty()
    } else {
        let k = first_break(text) as int;
        if k >= text.len() {
            seq![text]
        } else {
            seq![without_cr(text.take(k))] + lines_of(text.skip(k + 1))
        }
    }
}

/// The text that holds `lines`: each line followed by a line feed.
pub open spec fn text_of(lines: Seq<Seq<char>>) -> Seq<char>
    decreases lines.len(),
{
    if lines.len() == 0 {
        Seq::empty()
    } else {
        text_of(lines.drop_last()) + lines.last() + seq!['\n']
    }
}

/// A line comes back from a file as it went in when it holds no line feed
/// and does not end in a carriage return.
pub open spec fn survives_reload(line: Seq<char>) -> bool {
    &&& !line.contains('\n')
    &&& line.len() > 0 ==> line.last() != '\r'
}

/// A text to which lines can be appended: it is empty or ends in a line feed.
pub open spec fn is_closed_text(text: Seq<char>) -> bool {
    text.len() == 0 || text.last() == '\n'
}

/// `first_break` finds the first line feed and nothing before it.
pub proof fn lemma_first_break(text: Seq<char>)
    ensures
        first_break(text) <= text.len(),
        forall|j: int| 0 <= j < first_break(text) ==> text[j] != '\n',
        first_break(text) < text.len() ==> text[first_break(text) as int] == '\n',
    decreases text.len(),
{
    if text.len() == 0 || text[0] == '\n' {
    } else {
        let rest = text.skip(1);
        lemma_first_break(rest);
        assert forall|j: int| 0 <= j < first_break(text) implies text[j] != '\n' by {
            if j > 0 {
                assert(text[j] == rest[j - 1]);
            }
        }
        if first_break(text) < text.len() {
            assert(text[first_break(text) as int] == rest[first_break(rest) as int]);
        }
    }
}

/// A position with a line feed and none before it is the first break.
pub proof fn lemma_first_break_is(text: Seq<char>, k: int)
    requires
        0 <= k <= text.len(),
        forall|j: int| 0 <= j < k ==> text[j] != '\n',
        k < text.len() ==> text[k] == '\n',
    ensures
        first_break(text) == k,
{
    lemma_first_break(text);
    let f = first_break(text) as int;
    if f < k {
        assert(text[f] != '\n');
    } else if k < f {
        assert(text[k] == '\n');
    }
}

/// The first line of a text that opens with `head`, a line free of line
/// feeds, and a line feed.
pub proof fn lemma_lines_of_head(head: Seq<char>, rest: Seq<char>)
    requires
        !head.contains('\n'),
    ensures
        lines_of(head + seq!['\n'] + rest) == seq![without_cr(head)] + lines_of(rest),
{
    let text = head + seq!['\n'] + rest;
    let k = head.len() as int;
    assert forall|j: int| 0 <= j < k implies text[j] != '\n' by {
        assert(text[j] == head[j]);
        assert(head.contains(head[j]));
    }
    lemma_first_break_is(text, k);
    assert(text.take(k) =~= head);
    assert(text.skip(k + 1) =~= rest);
}

/// A text without a line feed is one line, or none where it is empty.
pub proof fn lemma_lines_of_tail(tail: Seq<char>)
    requires
        !tail.contains('\n'),
    ensures
        lines_of(tail) == if tail.len() == 0 {
            Seq::<Seq<char>>::empty()
        } else {
            seq![tail]
        },
{
    if tail.len() > 0 {
        assert forall|j: int| 0 <= j < tail.len() implies tail[j] != '\n' by {
            assert(tail.contains(tail[j]));
        }
        lemma_first_break_is(tail, tail.len() as int);
    }
}

/// No line that was read from a text holds a line feed.
pub proof fn lemma_lines_hold_no_break(text: Seq<char>)
    ensures
        forall|i: int|
            0 <= i < lines_of(text).len() ==> !(#[trigger] lines_of(text)[i]).contains('\n'),
    decreases text.len(),
{
    if text.len() > 0 {
        lemma_first_break(text);
        let k = first_break(text) as int;
        if k >= text.len() {
            assert(!text.contains('\n'));
        } else {
            lemma_lines_hold_no_break(text.skip(k + 1));
            let head = without_cr(text.take(k));
            assert forall|j: int| 0 <= j < head.len() implies head[j] != '\n' by {
                assert(head[j] == text[j]);
            }
            assert(!head.contains('\n'));
            assert forall|i: int| 0 <= i < lines_of(text).len() implies !(
            #[trigger] lines_of(text)[i]).contains('\n') by {
                if i > 0 {
                    assert(lines_of(text)[i] == lines_of(text.skip(k + 1))[i - 1]);
                }
            }
        }
    }
}

/// The text of two runs of lines is the text of the first, then the text of
/// the second.
pub proof fn lemma_text_of_concat(first: Seq<Seq<char>>, second: Seq<Seq<char>>)
    ensures
        text_of(first + second) == text_of(first) + text_of(second),
    decreases second.len(),
{
    if second.len() == 0 {
        assert(first + second =~= first);
        assert(text_of(first) + text_of(second) =~= text_of(first));
    } else {
        lemma_text_of_concat(first, second.drop_last());
        assert((first + second).drop_last() =~= first + second.drop_last());
        assert((first + second).last() == second.last());
        assert(text_of(first + second) =~= text_of(first) + text_of(second));
    }
}

/// The text of some lines is empty or ends in a line feed.
pub proof fn lemma_text_of_is_closed(lines: Seq<Seq<char>>)
    ensures
        is_closed_text(text_of(lines)),
{
}

/// One more line at the end of a closed text is one more line when the text
/// is read again.
pub proof fn lemma_append_line(text: Seq<char>, line: Seq<char>)
    requires
        is_closed_text(text),
        survives_reload(line),
    ensures
        lines_of(text + line + seq!['\n']) == lines_of(text).push(line),
    decreases text.len(),
{
    if text.len() == 0 {
        assert(text + line =~= line);
        lemma_lines_of_head(line, Seq::empty());
        assert(line + seq!['\n'] + Seq::<char>::empty() =~= line + seq!['\n']);
        assert(seq![without_cr(line)] + lines_of(Seq::<char>::empty()) =~= lines_of(text).push(
            line,
        ));
    } else {
        lemma_first_break(text);
        let k = first_break(text) as int;
        if k >= text.len() {
            assert(text[text.len() - 1] == '\n');
        }
        let head = text.take(k);
        let rest = text.skip(k + 1);
        assert forall|j: int| 0 <= j < head.len() implies head[j] != '\n' by {
            assert(head[j] == text[j]);
        }
        assert(!head.contains('\n'));
        if rest.len() > 0 {
            assert(rest.last() == text.last());
        }
        lemma_append_line(rest, line);
        lemma_lines_of_head(head, rest + line + seq!['\n']);
        assert(head + seq!['\n'] + (rest + line + seq!['\n']) =~= text + line + seq!['\n']);
        assert(seq![without_cr(head)] + lines_of(rest).push(line) =~= lines_of(text).push(line));
    }
}

/// Lines appended to a closed text are read back behind the lines that the
/// text held.
pub proof fn lemma_append_then_read(text: Seq<char>, lines: Seq<Seq<char>>)
    requires
        is_closed_text(text),
        forall|i: int| 0 <= i < lines.len() ==> survives_reload(#[trigger] lines[i]),
    ensures
        lines_of(text + text_of(lines)) == lines_of(text) + lines,
    decreases lines.len(),
{
    if lines.len() == 0 {
        assert(text + text_of(lines) =~= text);
        assert(lines_of(text) + lines =~= lines_of(text));
    } else {
        let front = lines.drop_last();
        assert forall|i: int| 0 <= i < front.len() implies survives_reload(
            #[trigger] front[i],
        ) by {
            assert(front[i] == lines[i]);
        }
        lemma_append_then_read(text, front);
        lemma_text_of_is_closed(front);
        let before = text + text_of(front);
        assert(is_closed_text(before)) by {
            if text_of(front).len() > 0 {
                assert(before.last() == text_of(front).last());
            } else {
                assert(before =~= text);
            }
        }
        lemma_append_line(before, lines.last());
        assert(before + lines.last() + seq!['\n'] =~= text + text_of(lines));
        assert((lines_of(text) + front).push(lines.last()) =~= lines_of(text) + lines);
    }
}

/// Lines that were written out are read back unchanged.
pub proof fn lemma_write_then_read(lines: Seq<Seq<char>>)
    requires
        forall|i: int| 0 <= i < lines.len() ==> survives_reload(#[trigger] lines[i]),
    ensures
        lines_of(text_of(lines)) == lines,
{
    lemma_append_then_read(Seq::empty(), lines);
    assert(Seq::<char>::empty() + text_of(lines) =~= text_of(lines));
    assert(lines_of(Seq::<char>::empty()) + lines =~= lines);
}

/// Splits the content of a file into its lines.
pub fn read_lines(content: &str) -> (lines: Vec<String>)
    ensures
        texts(lines@) == lines_of(content@),
{
    let mut lines: Vec<String> = Vec::new();
    let mut current = String::new();
    // A carriage return that was read and not yet given to `current`: it is
    // dropped where a line feed follows it.
    let mut held = false;
    proof {
        assert(current@ + Seq::<char>::empty() + content@.skip(0) =~= content@);
        assert(texts(lines@) + lines_of(content@) =~= lines_of(content@));
    }
    for c in it: content.chars()
        invariant
            it.seq() == content@,
            !current@.contains('\n'),
            !held ==> current@.len() == 0 || current@.last() != '\r',
            lines_of(content@) == texts(lines@) + lines_of(
                current@ + (if held {
                    seq!['\r']
                } else {
                    Seq::empty()
                }) + content@.skip(it.index() as int),
            ),
    {
        let ghost open = current@ + (if held {
            seq!['\r']
        } else {
            Seq::empty()
        });
        let ghost rest = content@.skip(it.index() as int);
        let ghost after = content@.skip(it.index() + 1);
        let ghost done_before = texts(lines@);
        proof {
            assert(rest =~= seq![c] + after);
            assert(!open.contains('\n')) by {
                assert forall|j: int| 0 <= j < open.len() implies open[j] != '\n' by {
                    if j < current@.len() {
                        assert(current@.contains(current@[j]));
                    }
                }
            }
        }
        if c == '\n' {
            proof {
                lemma_lines_of_head(open, after);
                assert(open + rest =~= open + seq!['\n'] + after);
                assert(without_cr(open) =~= current@);
            }
            lines.push(current);
            current = String::new();
            held = false;
            proof {
                assert(texts(lines@) =~= done_before.push(without_cr(open)));
                assert(current@ + Seq::<char>::empty() + after =~= after);
                assert(done_before + (seq![without_cr(open)] + lines_of(after)) =~= texts(lines@)
                    + lines_of(after));
            }
        } else {
            if held {
                current.push('\r');
            }
            if c == '\r' {
                held = true;
            } else {
                current.push(c);
                held = false;
            }
            proof {
                let open_now = current@ + (if held {
                    seq!['\r']
                } else {
                    Seq::empty()
                });
                assert(open_now =~= open.push(c));
                assert(open_now + after =~= open + rest);
                assert(!current@.contains('\n')) by {
                    assert forall|j: int| 0 <= j < current@.len() implies current@[j] != '\n' by {
                        assert(current@[j] == open_now[j]);
                        if j < open.len() {
                            assert(open.contains(open[j]));
                        }
                    }
                }
            }
        }
    }
    let ghost open = current@ + (if held {
        seq!['\r']
    } else {
        Seq::empty()
    });
    let ghost kept = current@;
    if held {
        current.push('\r');
    }
    proof {
        assert(open + content@.skip(content@.len() as int) =~= open);
        assert(current@ =~= open);
        assert(!open.contains('\n')) by {
            assert forall|j: int| 0 <= j < open.len() implies open[j] != '\n' by {
                if j < kept.len() {
                    assert(kept.contains(kept[j]));
                }
            }
        }
        lemma_lines_of_tail(open);
        let ghost done_before = texts(lines@);
        if open.len() > 0 {
            assert(done_before + seq![open] =~= done_before.push(open));
        } else {
            assert(done_before + Seq::<Seq<char>>::empty() =~= done_before);
        }
    }
    let ghost done_before = texts(lines@);
    if !current.as_str().is_empty() {
        lines.push(current);
        assert(texts(lines@) =~= done_before.push(open));
    }
    lines
}

/// Writes `lines` as the content of a file: each line, then a line feed.
pub fn write_lines(lines: &[String]) -> (text: String)
    ensures
        text@ == text_of(texts(lines@)),
{
    let mut text = String::new();
    let mut i: usize = 0;
    while i < lines.len()
        invariant
            i <= lines.len(),
            text@ == text_of(texts(lines@).take(i as int)),
        decreases lines.len() - i,
    {
        text.append(lines[i].as_str());
        text.push('\n');
        proof {
            let all = texts(lines@);
            assert(all.take(i + 1).drop_last() =~= all.take(i as int));
            assert(all.take(i + 1).last() == lines@[i as int]@);
        }
        i += 1;
    }
    assert(texts(lines@).take(lines.len() as int) =~= texts(lines@));
    text
}

/// Decides whether two strings hold the same characters.
pub fn same_text(a: &str, b: &str) -> (same: bool)
    ensures
        same == (a@ == b@),
{
    let mut left = a.chars();
    let mut right = b.chars();
    let ghost mut at: int = 0;
    loop
        invariant
            0 <= at <= a@.len(),
            at <= b@.len(),
            left.remaining() == a@.skip(at),
            right.remaining() == b@.skip(at),
            a@.take(at) == b@.take(at),
        decreases a@.len() - at,
    {
        match (left.next(), right.next()) {
            (None, None) => {
                proof {
                    assert(a@.take(at) =~= a@);
                    assert(b@.take(at) =~= b@);
                }
                return true;
            },
            (Some(x), Some(y)) => {
                if x != y {
                    assert(a@[at] != b@[at]);
                    return false;
                }
                proof {
                    assert(a@.skip(at).drop_first() =~= a@.skip(at + 1));
                    assert(b@.skip(at).drop_first() =~= b@.skip(at + 1));
                    assert(a@.take(at + 1) =~= a@.take(at).push(x));
                    assert(b@.take(at + 1) =~= b@.take(at).push(y));
                    at = at + 1;
                }
            },
            _ => {
                assert(a@.len() != b@.len());
                return false;
            },
        }
    }
}

} // verus!
