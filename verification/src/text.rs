//! Characters and lines of text.
use vstd::prelude::*;

verus! {

/// The index of the first line feed in `text` from `from` on, or else the length of `text`.
pub open spec fn line_feed(text: Seq<char>, from: int) -> int
    decreases text.len() - from,
{
    if from >= text.len() || text[from] == '\n' {
        from
    } else {
        line_feed(text, from + 1)
    }
}

/// `line` without the carriage return which belongs to the line feed behind it.
pub open spec fn without_return(line: Seq<char>) -> Seq<char> {
    if line.len() > 0 && line.last() == '\r' {
        line.drop_last()
    } else {
        line
    }
}

/// The lines of `text`. Every line ends with a line feed, which may have a carriage return in front
/// of it; the line feed of the last line is optional.
pub open spec fn lines(text: Seq<char>) -> Seq<Seq<char>>
    decreases text.len(),
{
    if text.len() == 0 {
        Seq::empty()
    } else {
        let end = line_feed(text, 0);
        if 0 <= end < text.len() {
            seq![without_return(text.take(end))] + lines(text.skip(end + 1))
        } else {
            seq![text]
        }
    }
}

/// The contents of all lines.
pub open spec fn contents(lines: Seq<Vec<char>>) -> Seq<Seq<char>> {
    lines.map_values(|line: Vec<char>| line@)
}

proof fn lemma_line_feed(text: Seq<char>, from: int, end: int)
    requires
        0 <= from <= end <= text.len(),
        forall|i: int| from <= i < end ==> #[trigger] text[i] != '\n',
    ensures
        line_feed(text, from) == line_feed(text, end),
    decreases end - from,
{
    if from < end {
        lemma_line_feed(text, from + 1, end);
    }
}

/// The characters of a text.
pub fn characters(text: &str) -> (characters: Vec<char>)
    ensures
        characters@ == text@,
{
    let mut characters: Vec<char> = Vec::new();
    for c in iter: text.chars()
        invariant
            characters@ == text@.take(iter.index()),
            iter.seq() == text@,
    {
        characters.push(c);
        assert(text@.take(iter.index() + 1) =~= text@.take(iter.index()).push(c));
    }
    assert(text@.take(text@.len() as int) =~= text@);
    characters
}

/// Check if both have the same characters.
pub fn same_characters(a: &Vec<char>, b: &Vec<char>) -> (same: bool)
    ensures
        same == (a@ == b@),
{
    if a.len() != b.len() {
        return false;
    }
    let mut i: usize = 0;
    while i < a.len()
        invariant
            i <= a@.len(),
            a@.len() == b@.len(),
            forall|j: int| 0 <= j < i ==> a@[j] == b@[j],
        decreases a@.len() - i,
    {
        if a[i] != b[i] {
            return false;
        }
        i = i + 1;
    }
    assert(a@ =~= b@);
    true
}

/// Check if a text spans a line break.
pub fn has_line_feed(text: &str) -> (found: bool)
    ensures
        found == text@.contains('\n'),
{
    let characters = characters(text);
    let mut i: usize = 0;
    while i < characters.len()
        invariant
            i <= characters@.len(),
            characters@ == text@,
            forall|j: int| 0 <= j < i ==> text@[j] != '\n',
        decreases characters@.len() - i,
    {
        if characters[i] == '\n' {
            assert(text@[i as int] == '\n');
            return true;
        }
        i = i + 1;
    }
    false
}

/// Split a text into its lines.
pub fn split_lines(text: &str) -> (split: Vec<Vec<char>>)
    ensures
        contents(split@) == lines(text@),
{
    let characters = characters(text);
    let mut split: Vec<Vec<char>> = Vec::new();
    let mut line: Vec<char> = Vec::new();
    let ghost mut start: int = 0;
    let mut i: usize = 0;
    assert(text@.skip(0) =~= text@);
    assert(contents(split@) =~= Seq::empty());
    while i < characters.len()
        invariant
            0 <= start <= i <= characters@.len(),
            characters@ == text@,
            line@ == text@.subrange(start, i as int),
            forall|j: int| start <= j < i ==> #[trigger] text@[j] != '\n',
            lines(text@) == contents(split@) + lines(text@.skip(start)),
        decreases characters@.len() - i,
    {
        let c: char = characters[i];
        if c == '\n' {
            let ghost rest = text@.skip(start);
            proof {
                assert forall|j: int| 0 <= j < i - start implies #[trigger] rest[j] != '\n' by {
                    assert(rest[j] == text@[start + j]);
                }
                lemma_line_feed(rest, 0, i - start);
                assert(rest[i - start] == '\n');
                assert(rest.take(i - start) =~= line@);
                assert(rest.skip(i - start + 1) =~= text@.skip(i + 1));
            }
            let ghost full = line@;
            let len: usize = line.len();
            if len > 0 && line[len - 1] == '\r' {
                let last = line.pop();
            }
            assert(line@ =~= without_return(full));
            let ghost before = split@;
            split.push(line);
            line = Vec::new();
            proof {
                assert(contents(split@) =~= contents(before).push(without_return(full)));
                assert(lines(text@) =~= contents(split@) + lines(text@.skip(i + 1)));
                start = i + 1;
            }
        } else {
            line.push(c);
        }
        i = i + 1;
        assert(line@ =~= text@.subrange(start, i as int));
    }
    let ghost rest = text@.skip(start);
    if line.len() > 0 {
        proof {
            assert forall|j: int| 0 <= j < rest.len() implies #[trigger] rest[j] != '\n' by {
                assert(rest[j] == text@[start + j]);
            }
            lemma_line_feed(rest, 0, rest.len() as int);
            assert(line@ =~= rest);
        }
        let ghost before = split@;
        split.push(line);
        assert(contents(split@) =~= contents(before).push(rest));
        assert(contents(split@) =~= lines(text@));
    } else {
        assert(contents(split@) =~= lines(text@));
    }
    split
}

/// A line feed ends a line, and the lines of what follows come next. A carriage return in front of
/// the line feed is not part of the line, and nothing else is left out.
pub proof fn a_line_feed_ends_a_line(line: Seq<char>, rest: Seq<char>)
    requires
        !line.contains('\n'),
    ensures
        lines(line.push('\n') + rest) == seq![
            if line.len() > 0 && line[line.len() - 1] == '\r' {
                line.take(line.len() - 1)
            } else {
                line
            },
        ] + lines(rest),
{
    let text = line.push('\n') + rest;
    assert forall|i: int| 0 <= i < line.len() implies #[trigger] text[i] != '\n' by {
        assert(line.contains(line[i]));
    }
    lemma_line_feed(text, 0, line.len() as int);
    assert(text[line.len() as int] == '\n');
    assert(text.take(line.len() as int) =~= line);
    assert(text.skip((line.len() + 1) as int) =~= rest);
    if line.len() > 0 {
        assert(line.drop_last() =~= line.take(line.len() - 1));
    }
}

/// Text without a line feed is one line as it is, and there is no line without text.
pub proof fn text_without_line_feeds_is_a_line(text: Seq<char>)
    requires
        !text.contains('\n'),
    ensures
        text.len() > 0 ==> lines(text) == seq![text],
        text.len() == 0 ==> lines(text).len() == 0,
{
    assert forall|i: int| 0 <= i < text.len() implies #[trigger] text[i] != '\n' by {
        assert(text.contains(text[i]));
    }
    lemma_line_feed(text, 0, text.len() as int);
}

proof fn lemma_lines_behind(text: Seq<char>, rest: Seq<char>)
    requires
        text.len() == 0 || text.last() == '\n',
    ensures
        lines(text + rest) == lines(text) + lines(rest),
    decreases text.len(),
{
    if text.len() == 0 {
        assert(text + rest =~= rest);
        assert(lines(text) + lines(rest) =~= lines(rest));
    } else {
        let end = lemma_first_line_feed(text, 0);
        let line = text.take(end);
        let behind = text.skip(end + 1);
        assert(!line.contains('\n'));
        assert(text =~= line.push('\n') + behind);
        assert(text + rest =~= line.push('\n') + (behind + rest));
        a_line_feed_ends_a_line(line, behind);
        a_line_feed_ends_a_line(line, behind + rest);
        lemma_lines_behind(behind, rest);
        assert(lines(text + rest) =~= lines(text) + lines(rest));
    }
}

proof fn lemma_first_line_feed(text: Seq<char>, from: int) -> (end: int)
    requires
        0 <= from < text.len(),
        text.last() == '\n',
    ensures
        from <= end < text.len(),
        text[end] == '\n',
        forall|i: int| from <= i < end ==> text[i] != '\n',
    decreases text.len() - from,
{
    if text[from] == '\n' {
        from
    } else {
        lemma_first_line_feed(text, from + 1)
    }
}

/// Whatever is printed in front of a line, as long as it ends with a line feed, and whatever is printed
/// behind it: the line is one of the lines. A line feed ends it, which may have a carriage return in
/// front of it, or the end of the text.
pub proof fn printed_lines_are_lines(before: Seq<char>, line: Seq<char>, behind: Seq<char>)
    requires
        before.len() == 0 || before[before.len() - 1] == '\n',
        !line.contains('\n'),
    ensures
        line.len() == 0 || line.last() != '\r' ==> lines(before + line.push('\n') + behind).contains(
            line,
        ),
        lines(before + line.push('\r').push('\n') + behind).contains(line),
        line.len() > 0 ==> lines(before + line).contains(line),
{
    let count = lines(before).len() as int;
    if line.len() == 0 || line.last() != '\r' {
        assert(before + line.push('\n') + behind =~= before + (line.push('\n') + behind));
        lemma_lines_behind(before, line.push('\n') + behind);
        a_line_feed_ends_a_line(line, behind);
        assert(lines(before + line.push('\n') + behind)[count] == line);
    }
    let returned = line.push('\r');
    assert(!returned.contains('\n')) by {
        assert forall|i: int| 0 <= i < returned.len() implies returned[i] != '\n' by {
            if i < line.len() {
                assert(line.contains(line[i]));
            }
        }
    }
    assert(before + returned.push('\n') + behind =~= before + (returned.push('\n') + behind));
    lemma_lines_behind(before, returned.push('\n') + behind);
    a_line_feed_ends_a_line(returned, behind);
    assert(returned.take(returned.len() - 1) =~= line);
    assert(lines(before + returned.push('\n') + behind)[count] == line);
    if line.len() > 0 {
        lemma_lines_behind(before, line);
        text_without_line_feeds_is_a_line(line);
        assert(lines(before + line)[count] == line);
    }
}

/// No line has a line feed in it.
pub proof fn lines_have_no_line_feeds(text: Seq<char>, k: int)
    requires
        0 <= k < lines(text).len(),
    ensures
        !lines(text)[k].contains('\n'),
    decreases text.len(),
{
    let end = line_feed(text, 0);
    lemma_up_to_line_feed(text, 0);
    if end < text.len() {
        let line = without_return(text.take(end));
        let rest = text.skip(end + 1);
        assert(lines(text) =~= seq![line] + lines(rest));
        if k == 0 {
            assert forall|i: int| 0 <= i < line.len() implies line[i] != '\n' by {
                assert(line[i] == text[i]);
            }
        } else {
            lines_have_no_line_feeds(rest, k - 1);
        }
    }
}

proof fn lemma_up_to_line_feed(text: Seq<char>, from: int)
    requires
        0 <= from <= text.len(),
    ensures
        from <= line_feed(text, from) <= text.len(),
        forall|i: int| from <= i < line_feed(text, from) ==> text[i] != '\n',
    decreases text.len() - from,
{
    if from < text.len() && text[from] != '\n' {
        lemma_up_to_line_feed(text, from + 1);
    }
}

} // verus!
