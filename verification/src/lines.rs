//! The text of a file and the lines it is made of.

use crate::text::{chars_of, string_of};
use vstd::prelude::*;
use vstd::seq_lib::lemma_flatten_concat;
use vstd::utf8::{encode_utf8, leading_byte_width_1};

verus! {

/// The number of characters of `text` before its first line feed, or all
/// of them where it holds none.
pub open spec fn line_length(text: Seq<char>) -> nat
    decreases text.len(),
{
    if text.len() == 0 || text[0] == '\n' {
        0
    } else {
        1 + line_length(text.drop_first())
    }
}

/// `line` without the carriage return at its end, if it has one there.
pub open spec fn without_return(line: Seq<char>) -> Seq<char> {
    if line.len() > 0 && line.last() == '\r' {
        line.drop_last()
    } else {
        line
    }
}

/// The lines of `text`. A line ends at a line feed, which is dropped
/// together with a carriage return that stands right before it. What
/// follows the last line feed is a line of its own unless it is empty; a
/// carriage return at its end stays.
pub open spec fn lines_of(text: Seq<char>) -> Seq<Seq<char>>
    decreases text.len(),
{
    if text.len() == 0 {
        Seq::empty()
    } else {
        let n = line_length(text);
        if n >= text.len() {
            seq![text]
        } else {
            seq![without_return(text.take(n as int))] + lines_of(text.skip(n as int + 1))
        }
    }
}

/// The text of a file that holds `lines`: each line followed by one line feed.
pub open spec fn file_text(lines: Seq<Seq<char>>) -> Seq<char> {
    lines.map_values(|line: Seq<char>| line + seq!['\n']).flatten()
}

/// The bytes of a file that holds `lines`: the bytes of each line followed
/// by the one byte of a line feed.
pub open spec fn file_bytes(lines: Seq<Seq<char>>) -> Seq<u8> {
    lines.map_values(|line: Seq<char>| encode_utf8(line) + seq![10u8]).flatten()
}

/// `line` holds no line feed.
pub open spec fn one_line(line: Seq<char>) -> bool {
    forall|i: int| 0 <= i < line.len() ==> line[i] != '\n'
}

/// A line as it can be written and read back: it holds no line feed and
/// does not end in a carriage return.
pub open spec fn plain_line(line: Seq<char>) -> bool {
    &&& one_line(line)
    &&& (line.len() > 0 ==> line.last() != '\r')
}

/// No line feed stands before the end of the first line.
pub proof fn lemma_first_line_is_one_line(text: Seq<char>)
    ensures
        line_length(text) <= text.len(),
        one_line(text.take(line_length(text) as int)),
    decreases text.len(),
{
    if text.len() > 0 && text[0] != '\n' {
        let rest = text.drop_first();
        lemma_first_line_is_one_line(rest);
        let n = line_length(text) as int;
        assert forall|i: int| 0 <= i < n implies text.take(n)[i] != '\n' by {
            if i > 0 {
                assert(text.take(n)[i] == rest.take(n - 1)[i - 1]);
            }
        }
    }
}

/// No line of a text holds a line feed.
pub proof fn lemma_lines_are_one_line(text: Seq<char>)
    ensures
        forall|i: int| 0 <= i < lines_of(text).len() ==> one_line(#[trigger] lines_of(text)[i]),
    decreases text.len(),
{
    if text.len() > 0 {
        let n = line_length(text) as int;
        lemma_first_line_is_one_line(text);
        if n < text.len() {
            let rest = text.skip(n + 1);
            lemma_lines_are_one_line(rest);
            assert forall|i: int| 0 <= i < lines_of(text).len() implies one_line(
                #[trigger] lines_of(text)[i],
            ) by {
                if i > 0 {
                    assert(lines_of(text)[i] == lines_of(rest)[i - 1]);
                }
            }
        } else {
            assert(text.take(n) =~= text);
        }
    }
}

/// Two texts without a line feed join to one without: what is put
/// together of lines is a line.
pub proof fn lemma_one_line_joined(first: Seq<char>, second: Seq<char>)
    ensures
        one_line(first + second) <==> one_line(first) && one_line(second),
{
    let joined = first + second;
    if one_line(joined) {
        assert forall|i: int| 0 <= i < first.len() implies first[i] != '\n' by {
            assert(joined[i] == first[i]);
        }
        assert forall|i: int| 0 <= i < second.len() implies second[i] != '\n' by {
            assert(joined[first.len() + i] == second[i]);
        }
    }
}

/// Where the first `k` characters of `text` hold no line feed, the first
/// line is at least `k` long; it is exactly `k` long where a line feed or
/// the end of the text follows.
pub proof fn lemma_line_length(text: Seq<char>, k: int)
    requires
        0 <= k <= text.len(),
        forall|j: int| 0 <= j < k ==> text[j] != '\n',
    ensures
        line_length(text) >= k,
        k == text.len() || text[k] == '\n' ==> line_length(text) == k,
    decreases k,
{
    if k > 0 {
        lemma_line_length(text.drop_first(), k - 1);
    }
}

/// Where a line feed stands at `k` and none before it, the first line is
/// what stands before `k`, less a carriage return at its end, and the other
/// lines are those of what follows `k`.
pub proof fn lemma_lines_of_step(text: Seq<char>, k: int)
    requires
        0 <= k < text.len(),
        text[k] == '\n',
        forall|j: int| 0 <= j < k ==> text[j] != '\n',
    ensures
        lines_of(text) == seq![without_return(text.take(k))] + lines_of(text.skip(k + 1)),
{
    lemma_line_length(text, k);
}

/// A text without a line feed is one line, or none where it is empty.
pub proof fn lemma_lines_of_last(text: Seq<char>)
    requires
        forall|j: int| 0 <= j < text.len() ==> text[j] != '\n',
    ensures
        lines_of(text) == if text.len() == 0 {
            Seq::<Seq<char>>::empty()
        } else {
            seq![text]
        },
{
    lemma_line_length(text, text.len() as int);
}

/// Cuts `text` into its lines.
pub fn split_lines(text: &str) -> (lines: Vec<String>)
    ensures
        lines.deep_view() == lines_of(text@),
{
    let chars = chars_of(text);
    let mut lines: Vec<String> = Vec::new();
    let mut start: usize = 0;
    let mut i: usize = 0;
    assert(text@.skip(0) =~= text@);
    while i < chars.len()
        invariant
            start <= i <= chars.len(),
            chars@ == text@,
            forall|j: int| start <= j < i ==> chars@[j] != '\n',
            lines_of(text@) == lines.deep_view() + lines_of(text@.skip(start as int)),
        decreases chars.len() - i,
    {
        if chars[i] == '\n' {
            let end: usize = if i > start && chars[i - 1] == '\r' {
                i - 1
            } else {
                i
            };
            let line = string_of(chars.as_slice(), start, end);
            proof {
                let rest = text@.skip(start as int);
                let k = i - start;
                lemma_lines_of_step(rest, k);
                assert(rest.skip(k + 1) =~= text@.skip(i + 1));
                assert(line@ =~= without_return(rest.take(k)));
            }
            lines.push(line);
            start = i + 1;
        }
        i += 1;
    }
    if start < chars.len() {
        let line = string_of(chars.as_slice(), start, chars.len());
        proof {
            lemma_lines_of_last(text@.skip(start as int));
        }
        lines.push(line);
    } else {
        proof {
            lemma_lines_of_last(text@.skip(start as int));
        }
    }
    lines
}

/// The text of a file is the text of its first lines followed by that of
/// the others.
pub proof fn lemma_file_text_concat(first: Seq<Seq<char>>, others: Seq<Seq<char>>)
    ensures
        file_text(first + others) == file_text(first) + file_text(others),
{
    let ended = |line: Seq<char>| line + seq!['\n'];
    assert((first + others).map_values(ended) =~= first.map_values(ended) + others.map_values(
        ended,
    ));
    lemma_flatten_concat(first.map_values(ended), others.map_values(ended));
}

/// The bytes of a text are the bytes of its first part followed by those
/// of the rest.
pub proof fn lemma_encode_concat(first: Seq<char>, rest: Seq<char>)
    ensures
        encode_utf8(first + rest) == encode_utf8(first) + encode_utf8(rest),
    decreases first.len(),
{
    if first.len() > 0 {
        assert((first + rest).drop_first() =~= first.drop_first() + rest);
        lemma_encode_concat(first.drop_first(), rest);
    }
}

/// A line feed is the one byte 10.
pub proof fn lemma_encode_line_feed()
    ensures
        encode_utf8(seq!['\n']) == seq![10u8],
{
    assert(leading_byte_width_1(10u32) == 10u8) by (bit_vector);
    reveal_with_fuel(encode_utf8, 2);
}

/// The text of a file, in UTF-8, is the bytes of each line followed by one
/// byte for the line feed.
pub proof fn lemma_file_text_in_bytes(lines: Seq<Seq<char>>)
    ensures
        encode_utf8(file_text(lines)) == file_bytes(lines),
    decreases lines.len(),
{
    let ended = |line: Seq<char>| line + seq!['\n'];
    let in_bytes = |line: Seq<char>| encode_utf8(line) + seq![10u8];
    if lines.len() > 0 {
        let front = lines.drop_last();
        let last = lines.last();
        assert(lines.map_values(ended) =~= front.map_values(ended).push(last + seq!['\n']));
        assert(lines.map_values(in_bytes) =~= front.map_values(in_bytes).push(
            encode_utf8(last) + seq![10u8],
        ));
        front.map_values(ended).lemma_flatten_push(last + seq!['\n']);
        front.map_values(in_bytes).lemma_flatten_push(encode_utf8(last) + seq![10u8]);
        lemma_file_text_in_bytes(front);
        lemma_encode_concat(file_text(front), last + seq!['\n']);
        lemma_encode_concat(last, seq!['\n']);
        lemma_encode_line_feed();
    }
}

/// Writing plain lines to a file and reading the file back gives the same
/// lines.
pub proof fn lemma_lines_of_file_text(lines: Seq<Seq<char>>)
    requires
        forall|i: int| 0 <= i < lines.len() ==> plain_line(#[trigger] lines[i]),
    ensures
        lines_of(file_text(lines)) == lines,
    decreases lines.len(),
{
    let ended = |line: Seq<char>| line + seq!['\n'];
    if lines.len() > 0 {
        let head = lines[0];
        let tail = lines.drop_first();
        assert(lines =~= seq![head] + tail);
        lemma_file_text_concat(seq![head], tail);
        assert(seq![head].map_values(ended) =~= seq![head + seq!['\n']]);
        seq![head + seq!['\n']].lemma_flatten_one_element();
        let text = file_text(lines);
        lemma_line_length(text, head.len() as int);
        assert(text.take(head.len() as int) =~= head);
        assert(text.skip(head.len() as int + 1) =~= file_text(tail));
        lemma_lines_of_file_text(tail);
    }
}

} // verus!
