//! Building the rendered text: characters into rows, rows into a frame.

use vstd::prelude::*;
use vstd::string::StringExecFns;

verus! {

/// The text made of `rows` in order, a line feed between each two of them
/// and none after the last.
pub open spec fn join_lines(rows: Seq<Seq<char>>) -> Seq<char>
    decreases rows.len(),
{
    if rows.len() == 0 {
        Seq::empty()
    } else if rows.len() == 1 {
        rows[0]
    } else {
        join_lines(rows.drop_last()) + seq!['\n'] + rows.last()
    }
}

/// Joined text holds the characters of its rows and line feeds, nothing
/// else: whatever holds of every character of every row, and of the line
/// feed, holds of every character of the text.
pub proof fn lemma_join_lines_chars(rows: Seq<Seq<char>>, allowed: spec_fn(char) -> bool)
    requires
        allowed('\n'),
        forall|r: int, i: int|
            0 <= r < rows.len() && 0 <= i < rows[r].len() ==> allowed(#[trigger] rows[r][i]),
    ensures
        forall|i: int| 0 <= i < join_lines(rows).len() ==> allowed(#[trigger] join_lines(rows)[i]),
    decreases rows.len(),
{
    if rows.len() > 1 {
        let front = rows.drop_last();
        assert forall|r: int, i: int|
            0 <= r < front.len() && 0 <= i < front[r].len() implies allowed(
            #[trigger] front[r][i],
        ) by {
            assert(front[r] == rows[r]);
        }
        lemma_join_lines_chars(front, allowed);
        let last = rows.len() - 1;
        assert forall|i: int| 0 <= i < join_lines(rows).len() implies allowed(
            #[trigger] join_lines(rows)[i],
        ) by {
            let head = join_lines(front);
            if i < head.len() {
                assert(join_lines(rows)[i] == head[i]);
            } else if i == head.len() {
                assert(join_lines(rows)[i] == '\n');
            } else {
                assert(join_lines(rows)[i] == rows[last][i - head.len() - 1]);
            }
        }
    }
}

/// The characters of each string of `rows`.
pub open spec fn lines_view(rows: Seq<String>) -> Seq<Seq<char>> {
    rows.map_values(|s: String| s@)
}

/// `String::push` appends the given character to the end of the string.
#[verifier::external_body]
pub(crate) fn push_char(s: &mut String, c: char)
    ensures
        final(s)@ == old(s)@.push(c),
{
    s.push(c)
}

/// Joins `rows` with line feeds.
pub fn join(rows: &Vec<String>) -> (text: String)
    ensures
        text@ == join_lines(lines_view(rows@)),
{
    let mut text = String::new();
    let mut i: usize = 0;
    while i < rows.len()
        invariant
            i <= rows.len(),
            text@ == join_lines(lines_view(rows@).take(i as int)),
        decreases rows.len() - i,
    {
        let ghost lines = lines_view(rows@);
        proof {
            assert(lines.take(i + 1).drop_last() == lines.take(i as int));
            assert(lines.take(i + 1).last() == rows[i as int]@);
        }
        if i > 0 {
            push_char(&mut text, '\n');
        }
        text.append(rows[i].as_str());
        i += 1;
        proof {
            assert(text@ == join_lines(lines.take(i as int))) by {
                if i == 1 {
                    assert(lines.take(0).len() == 0);
                    assert(text@ == Seq::<char>::empty() + rows[0]@);
                } else {
                    assert(seq!['\n'] == Seq::<char>::empty().push('\n'));
                }
            }
        }
    }
    assert(lines_view(rows@).take(rows.len() as int) == lines_view(rows@));
    text
}

} // verus!
