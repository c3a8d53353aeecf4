//! What a caller wrote, and the request notation in it: a string literal
//! is freed of its quotes, and each of its lines of the blanks around it.

use crate::error::RequestError;
use crate::grammar::ErrorModel;
use vstd::prelude::*;
use vstd::string::*;

verus! {

/// Whether `c` has the Unicode property White_Space, as
/// `char::is_whitespace` decides it.
pub uninterp spec fn white_space(c: char) -> bool;

/// `char::is_whitespace` is trusted to depend on the character alone.
#[verifier::external_body]
fn is_whitespace(c: char) -> (blank: bool)
    ensures
        blank == white_space(c),
{
    c.is_whitespace()
}

/// For each character of `chars`, whether it is white space.
pub open spec fn blanks(chars: Seq<char>) -> Seq<bool> {
    Seq::new(chars.len(), |i: int| white_space(chars[i]))
}

/// The index behind the marks `r#` that stand at `from`, one after the
/// other.
pub open spec fn behind_raw_marks(chars: Seq<char>, from: int) -> int
    decreases chars.len() - from,
{
    if 0 <= from && from + 1 < chars.len() && chars[from] == 'r' && chars[from + 1] == '#' {
        behind_raw_marks(chars, from + 2)
    } else {
        from
    }
}

/// The first index from `from` on, below `to`, that does not hold `c`;
/// `to` if all of them hold it.
pub open spec fn behind_all(chars: Seq<char>, c: char, from: int, to: int) -> int
    decreases to - from,
{
    if 0 <= from < to && chars[from] == c {
        behind_all(chars, c, from + 1, to)
    } else {
        from
    }
}

/// The index behind the last character of `from` to `to` that is not `c`;
/// `from` if all of them are `c`.
pub open spec fn before_all(chars: Seq<char>, c: char, from: int, to: int) -> int
    decreases to - from,
{
    if from < to && chars[to - 1] == c {
        before_all(chars, c, from, to - 1)
    } else {
        to
    }
}

/// What a string literal holds between its quotes: the range that is left
/// when the marks `r#` in front, the `#` behind and then the quotes on
/// both sides are taken away.
pub open spec fn content_range(chars: Seq<char>) -> (int, int) {
    let start = behind_raw_marks(chars, 0);
    let end = before_all(chars, '#', start, chars.len() as int);
    let inner = behind_all(chars, '"', start, end);
    (inner, before_all(chars, '"', inner, end))
}

/// The first index from `from` on, below `to`, that holds a newline; `to`
/// if none does.
pub open spec fn line_end(chars: Seq<char>, from: int, to: int) -> int
    decreases to - from,
{
    if 0 <= from < to && chars[from] != '\n' {
        line_end(chars, from + 1, to)
    } else {
        from
    }
}

/// The first index from `from` on, below `to`, that is not blank.
pub open spec fn behind_blanks(blank: Seq<bool>, from: int, to: int) -> int
    decreases to - from,
{
    if 0 <= from < to && blank[from] {
        behind_blanks(blank, from + 1, to)
    } else {
        from
    }
}

/// The index behind the last of `from` to `to` that is not blank.
pub open spec fn before_blanks(blank: Seq<bool>, from: int, to: int) -> int
    decreases to - from,
{
    if from < to && blank[to - 1] {
        before_blanks(blank, from, to - 1)
    } else {
        to
    }
}

/// The range `from` to `to` without the blanks at its two ends.
pub open spec fn trimmed(blank: Seq<bool>, from: int, to: int) -> (int, int) {
    let start = behind_blanks(blank, from, to);
    (start, before_blanks(blank, start, to))
}

/// The lines of the range `from` to `to`, each without the blanks at its
/// ends. A newline ends a line; behind the last newline a line is counted
/// only if something stands there.
pub open spec fn line_ranges(chars: Seq<char>, blank: Seq<bool>, from: int, to: int) -> Seq<
    (int, int),
>
    decreases to - from,
{
    if 0 <= from < to {
        let end = line_end(chars, from, to);
        proof {
            lemma_line_end(chars, from, to);
        }
        seq![trimmed(blank, from, end)] + if end < to {
            line_ranges(chars, blank, end + 1, to)
        } else {
            Seq::empty()
        }
    } else {
        Seq::empty()
    }
}

/// The lines put together, with a newline between each two.
pub open spec fn join_lines(lines: Seq<Seq<char>>) -> Seq<char>
    decreases lines.len(),
{
    if lines.len() == 0 {
        Seq::empty()
    } else if lines.len() == 1 {
        lines[0]
    } else {
        join_lines(lines.drop_last()) + seq!['\n'] + lines.last()
    }
}

/// What the ranges cut out of `chars`.
pub open spec fn cut(chars: Seq<char>, ranges: Seq<(int, int)>) -> Seq<Seq<char>> {
    Seq::new(ranges.len(), |i: int| chars.subrange(ranges[i].0, ranges[i].1))
}

/// The ranges as pairs of integers.
pub open spec fn ranges_of(ranges: Seq<(usize, usize)>) -> Seq<(int, int)> {
    Seq::new(ranges.len(), |i: int| (ranges[i].0 as int, ranges[i].1 as int))
}

/// The request notation in a string literal as it was written: what
/// stands between the quotes, line by line, each line without the blanks
/// at its ends.
pub open spec fn request_in_literal(literal: Seq<char>) -> Seq<char> {
    let (start, end) = content_range(literal);
    join_lines(cut(literal, line_ranges(literal, blanks(literal), start, end)))
}

/// A line ends at or behind its start.
pub proof fn lemma_line_end(chars: Seq<char>, from: int, to: int)
    requires
        0 <= from <= to,
    ensures
        from <= line_end(chars, from, to) <= to,
    decreases to - from,
{
    if from < to && chars[from] != '\n' {
        lemma_line_end(chars, from + 1, to);
    }
}

/// The characters of a text.
pub fn chars_of(text: &str) -> (chars: Vec<char>)
    ensures
        chars@ == text@,
{
    let mut chars: Vec<char> = Vec::new();
    for c in it: text.chars()
        invariant
            it.seq() == text@,
            chars@ == it.seq().take(it.index()),
    {
        chars.push(c);
        assert(it.seq().take(it.index() + 1) =~= it.seq().take(it.index()).push(c));
    }
    assert(text@.take(text@.len() as int) =~= text@);
    chars
}

/// For each character, whether it is white space.
pub fn blanks_of(chars: &Vec<char>) -> (blank: Vec<bool>)
    ensures
        blank@ == blanks(chars@),
{
    let mut blank: Vec<bool> = Vec::new();
    let mut i: usize = 0;
    while i < chars.len()
        invariant
            i <= chars.len(),
            blank@ == blanks(chars@).take(i as int),
        decreases chars.len() - i,
    {
        blank.push(is_whitespace(chars[i]));
        assert(blanks(chars@).take(i + 1) =~= blanks(chars@).take(i as int).push(
            white_space(chars@[i as int]),
        ));
        i += 1;
    }
    assert(blanks(chars@).take(chars.len() as int) =~= blanks(chars@));
    blank
}

/// The range of a string literal that lies between its quotes.
pub fn content_of(chars: &Vec<char>) -> (range: (usize, usize))
    ensures
        (range.0 as int, range.1 as int) == content_range(chars@),
        range.0 <= range.1 <= chars.len(),
{
    let len = chars.len();
    let mut start: usize = 0;
    while len - start >= 2 && chars[start] == 'r' && chars[start + 1] == '#'
        invariant
            start <= len == chars.len(),
            behind_raw_marks(chars@, start as int) == behind_raw_marks(chars@, 0),
        decreases len - start,
    {
        start += 2;
    }
    let mut end: usize = len;
    while start < end && chars[end - 1] == '#'
        invariant
            start <= end <= len == chars.len(),
            before_all(chars@, '#', start as int, end as int) == before_all(
                chars@,
                '#',
                start as int,
                len as int,
            ),
        decreases end - start,
    {
        end -= 1;
    }
    let mut inner: usize = start;
    while inner < end && chars[inner] == '"'
        invariant
            start <= inner <= end <= chars.len(),
            behind_all(chars@, '"', inner as int, end as int) == behind_all(
                chars@,
                '"',
                start as int,
                end as int,
            ),
        decreases end - inner,
    {
        inner += 1;
    }
    let mut last: usize = end;
    while inner < last && chars[last - 1] == '"'
        invariant
            inner <= last <= end <= chars.len(),
            before_all(chars@, '"', inner as int, last as int) == before_all(
                chars@,
                '"',
                inner as int,
                end as int,
            ),
        decreases last - inner,
    {
        last -= 1;
    }
    (inner, last)
}

/// The lines of the range `from` to `to` of `chars`, each without the
/// characters at its ends that `blank` marks.
pub fn request_lines(chars: &Vec<char>, blank: &Vec<bool>, from: usize, to: usize) -> (ranges:
    Vec<(usize, usize)>)
    requires
        blank.len() == chars.len(),
        from <= to <= chars.len(),
    ensures
        ranges_of(ranges@) == line_ranges(chars@, blank@, from as int, to as int),
        forall|i: int|
            0 <= i < ranges.len() ==> (#[trigger] ranges[i]).0 <= ranges[i].1 <= chars.len(),
{
    let mut ranges: Vec<(usize, usize)> = Vec::new();
    let mut cursor: usize = from;
    assert(ranges_of(ranges@) + line_ranges(chars@, blank@, from as int, to as int)
        =~= line_ranges(chars@, blank@, from as int, to as int));
    while cursor < to
        invariant
            from <= cursor <= to <= chars.len() == blank.len(),
            line_ranges(chars@, blank@, from as int, to as int) == ranges_of(ranges@)
                + line_ranges(chars@, blank@, cursor as int, to as int),
            forall|i: int|
                0 <= i < ranges.len() ==> (#[trigger] ranges[i]).0 <= ranges[i].1 <= chars.len(),
        decreases to - cursor,
    {
        let line_start = cursor;
        let ghost before = ranges_of(ranges@);
        let mut end: usize = cursor;
        while end < to && chars[end] != '\n'
            invariant
                line_start <= end <= to <= chars.len(),
                line_end(chars@, end as int, to as int) == line_end(
                    chars@,
                    line_start as int,
                    to as int,
                ),
            decreases to - end,
        {
            end += 1;
        }
        let mut first: usize = line_start;
        while first < end && blank[first]
            invariant
                line_start <= first <= end <= blank.len(),
                behind_blanks(blank@, first as int, end as int) == behind_blanks(
                    blank@,
                    line_start as int,
                    end as int,
                ),
            decreases end - first,
        {
            first += 1;
        }
        let mut last: usize = end;
        while first < last && blank[last - 1]
            invariant
                first <= last <= end <= blank.len(),
                before_blanks(blank@, first as int, last as int) == before_blanks(
                    blank@,
                    first as int,
                    end as int,
                ),
            decreases last - first,
        {
            last -= 1;
        }
        ranges.push((first, last));
        if end < to {
            cursor = end + 1;
        } else {
            cursor = to;
        }
        proof {
            let line = trimmed(blank@, line_start as int, end as int);
            let rest = line_ranges(chars@, blank@, cursor as int, to as int);
            assert(ranges_of(ranges@) =~= before.push(line));
            assert(before.push(line) + rest =~= before + (seq![line] + rest));
        }
    }
    assert(ranges_of(ranges@) + Seq::empty() =~= ranges_of(ranges@));
    ranges
}

/// The request notation in a string literal as it was written, with its
/// quotes: what stands between the quotes, line by line, each line
/// without the blanks at its ends.
pub fn literal_request(literal: &str) -> (request: String)
    ensures
        request@ == request_in_literal(literal@),
{
    let chars = chars_of(literal);
    let blank = blanks_of(&chars);
    let (start, end) = content_of(&chars);
    let ranges = request_lines(&chars, &blank, start, end);
    let ghost lines = cut(literal@, ranges_of(ranges@));
    let mut request = String::new();
    let mut i: usize = 0;
    while i < ranges.len()
        invariant
            i <= ranges.len(),
            lines == cut(literal@, ranges_of(ranges@)),
            request@ == join_lines(lines.take(i as int)),
            forall|i: int|
                0 <= i < ranges.len() ==> (#[trigger] ranges[i]).0 <= ranges[i].1
                    <= literal@.len(),
        decreases ranges.len() - i,
    {
        let ghost longer = lines.take(i + 1);
        proof {
            assert(longer.drop_last() =~= lines.take(i as int));
            assert(longer.last() == literal@.subrange(
                ranges@[i as int].0 as int,
                ranges@[i as int].1 as int,
            ));
        }
        if i > 0 {
            request.append("\n");
            proof {
                reveal_strlit("\n");
                assert("\n"@ =~= seq!['\n']);
            }
        }
        let (first, last) = ranges[i];
        request.append(literal.substring_char(first, last));
        i += 1;
    }
    assert(lines.take(ranges.len() as int) =~= lines);
    request
}

/// What a caller wrote where a request is asked for, as its first token
/// shows it.
#[derive(Debug, PartialEq, Eq)]
pub enum Source {
    /// Nothing at all.
    Empty,
    /// A string literal, as it was written: with its quotes.
    Literal(String),
    /// Bare tokens that start with a word, printed.
    Ident(String),
    /// A bracketed group, with what it holds, printed.
    Group(String),
    /// Tokens that start with a punctuation mark.
    Punct,
}

/// The request notation in what a caller wrote, or why it holds none.
pub open spec fn request_in(source: Source) -> Result<Seq<char>, ErrorModel> {
    match source {
        Source::Empty => Err(ErrorModel::MissingRequest),
        Source::Literal(literal) => Ok(request_in_literal(literal@)),
        Source::Ident(tokens) => Ok(tokens@),
        Source::Group(stream) => Err(ErrorModel::UnexpectedGroup { stream: stream@ }),
        Source::Punct => Err(ErrorModel::UnexpectedToken),
    }
}

/// The request notation in what a caller wrote: the content of a string
/// literal, or bare tokens as they are printed. Anything else is turned
/// down.
pub fn get_request(source: Source) -> (r: Result<String, RequestError>)
    ensures
        match r {
            Ok(request) => request_in(source) == Ok::<Seq<char>, ErrorModel>(request@),
            Err(error) => request_in(source) == Err::<Seq<char>, ErrorModel>(error@),
        },
{
    match source {
        Source::Empty => Err(RequestError::MissingRequest),
        Source::Literal(literal) => Ok(literal_request(literal.as_str())),
        Source::Ident(tokens) => Ok(tokens),
        Source::Group(stream) => Err(RequestError::UnexpectedGroup { stream }),
        Source::Punct => Err(RequestError::UnexpectedToken),
    }
}

} // verus!
