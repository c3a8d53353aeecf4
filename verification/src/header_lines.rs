//! Header lines keep their order: the headers are read line by line, and
//! a line added at the end of a request adds one header at the end of its
//! headers, whatever stands before it.

use crate::blank_line::{
    behind_separator, blank_line_at, has_blank_line, lemma_behind_header,
    lemma_behind_request_line, lemma_headers_end,
};
use crate::grammar::{
    cursor_after_header, cursor_after_value, head_end, header_at, headers_from, join_tokens,
    line_end, parse, strip_colon, token_text, uri_start, value_continues, value_tokens,
    version_token, ErrorModel, RequestModel,
};
use crate::tokenizer::{
    cursor_after_token, is_separator, lemma_token_end, newline_at, token_bytes, token_end, NEWLINE,
    SPACE,
};
use vstd::prelude::*;
use vstd::utf8::decode_utf8;

verus! {

/// Where the headers that are read from `from` start, one index for each
/// header.
pub open spec fn header_starts(buf: Seq<u8>, from: int) -> Seq<int>
    decreases buf.len() - from,
{
    if 0 <= from < buf.len() && buf[from] != NEWLINE && token_end(buf, from) > from {
        proof {
            lemma_behind_header(buf, from);
        }
        seq![from] + header_starts(buf, cursor_after_header(buf, from))
    } else {
        Seq::empty()
    }
}

/// Behind a value no further token of the value can be read.
pub proof fn lemma_value_ends(buf: Seq<u8>, from: int)
    requires
        0 <= from <= buf.len(),
    ensures
        !value_continues(buf, cursor_after_value(buf, from)),
    decreases buf.len() - from,
{
    if value_continues(buf, from) {
        lemma_token_end(buf, from);
        lemma_value_ends(buf, cursor_after_token(buf, from));
    }
}

/// Each header is the one that is read at its start, and the starts come
/// one behind the other, each at the start of a line.
pub proof fn lemma_headers_from_starts(buf: Seq<u8>, from: int)
    requires
        newline_at(buf, from - 1),
        headers_from(buf, from) is Some,
    ensures
        headers_from(buf, from).unwrap().0.len() == header_starts(buf, from).len(),
        forall|i: int|
            0 <= i < header_starts(buf, from).len() ==> {
                &&& from <= (#[trigger] header_starts(buf, from)[i]) < buf.len()
                &&& newline_at(buf, header_starts(buf, from)[i] - 1)
                &&& headers_from(buf, from).unwrap().0[i] == header_at(
                    buf,
                    header_starts(buf, from)[i],
                )
            },
        forall|i: int, j: int|
            0 <= i < j < header_starts(buf, from).len() ==> header_starts(buf, from)[i]
                < header_starts(buf, from)[j],
    decreases buf.len() - from,
{
    let starts = header_starts(buf, from);
    let headers = headers_from(buf, from).unwrap().0;
    if from < buf.len() && buf[from] != NEWLINE {
        lemma_token_end(buf, from);
        lemma_behind_header(buf, from);
        lemma_value_ends(buf, cursor_after_token(buf, from));
        let next = cursor_after_header(buf, from);
        let later = header_starts(buf, next);
        let rest = headers_from(buf, next).unwrap().0;
        if later.len() > 0 {
            lemma_headers_from_starts(buf, next);
        } else {
            lemma_token_end(buf, next);
            assert(headers_from(buf, next) is Some);
            assert(rest.len() == 0);
        }
        assert forall|i: int| 0 <= i < starts.len() implies {
            &&& from <= (#[trigger] starts[i]) < buf.len()
            &&& newline_at(buf, starts[i] - 1)
            &&& headers[i] == header_at(buf, starts[i])
        } by {
            if i > 0 {
                assert(starts[i] == later[i - 1]);
                assert(headers[i] == rest[i - 1]);
            }
        }
        assert forall|i: int, j: int| 0 <= i < j < starts.len() implies starts[i] < starts[j] by {
            assert(starts[j] == later[j - 1]);
            if i > 0 {
                assert(starts[i] == later[i - 1]);
            }
        }
    }
}

/// Whether `headers` are what is read at `starts`, a row of indices that
/// grow, each the start of a line.
pub open spec fn read_in_order(
    buf: Seq<u8>,
    headers: Seq<(Seq<char>, Seq<char>)>,
    starts: Seq<int>,
) -> bool {
    &&& starts.len() == headers.len()
    &&& forall|i: int|
        0 <= i < starts.len() ==> {
            &&& newline_at(buf, (#[trigger] starts[i]) - 1)
            &&& headers[i] == header_at(buf, starts[i])
        }
    &&& forall|i: int, j: int| 0 <= i < j < starts.len() ==> starts[i] < starts[j]
}

/// The headers of a request stand in the order of their lines, and none
/// is left out or put together with another, also where a name comes
/// again: each header is what is read at the start of its line.
pub proof fn lemma_headers_in_line_order(buf: Seq<u8>)
    ensures
        parse(buf) matches Ok(request) ==> read_in_order(
            buf,
            request.headers,
            header_starts(buf, head_end(buf)),
        ),
{
    if parse(buf) is Ok {
        lemma_behind_request_line(buf);
        if head_end(buf) < buf.len() {
            lemma_headers_from_starts(buf, head_end(buf));
        }
    }
}

/// Bytes that are read as one token: at least one, and no separator.
pub open spec fn is_token(bytes: Seq<u8>) -> bool {
    &&& bytes.len() > 0
    &&& forall|i: int| 0 <= i < bytes.len() ==> !is_separator(#[trigger] bytes[i])
}

/// Whether each of `tokens` is read as one token.
pub open spec fn all_tokens(tokens: Seq<Seq<u8>>) -> bool {
    forall|i: int| 0 <= i < tokens.len() ==> is_token(#[trigger] tokens[i])
}

/// The tokens in one line, with a space in front of each.
pub open spec fn spaced(tokens: Seq<Seq<u8>>) -> Seq<u8>
    decreases tokens.len(),
{
    if tokens.len() == 0 {
        Seq::empty()
    } else {
        seq![SPACE] + tokens[0] + spaced(tokens.drop_first())
    }
}

/// A header line: the name's token, then the tokens of the value.
pub open spec fn header_line(name: Seq<u8>, values: Seq<Seq<u8>>) -> Seq<u8> {
    name + spaced(values)
}

/// The text of each token.
pub open spec fn texts(tokens: Seq<Seq<u8>>) -> Seq<Seq<char>> {
    Seq::new(tokens.len(), |i: int| decode_utf8(tokens[i]))
}

/// The header that a header line is read as.
pub open spec fn header_of(name: Seq<u8>, values: Seq<Seq<u8>>) -> (Seq<char>, Seq<char>) {
    (strip_colon(decode_utf8(name)), join_tokens(texts(values)))
}

/// A run of bytes without a separator, ended by a separator or by the end
/// of the buffer, is one token.
pub proof fn lemma_token_spans(buf: Seq<u8>, from: int, len: int)
    requires
        0 <= from,
        0 <= len,
        from + len <= buf.len(),
        forall|i: int| from <= i < from + len ==> !is_separator(#[trigger] buf[i]),
        from + len == buf.len() || is_separator(buf[from + len]),
    ensures
        token_end(buf, from) == from + len,
    decreases len,
{
    if len > 0 {
        lemma_token_spans(buf, from + 1, len - 1);
    }
}

/// The tokens of a value that ends the buffer are read as they stand.
pub proof fn lemma_reads_values(buf: Seq<u8>, from: int, values: Seq<Seq<u8>>)
    requires
        0 < from <= buf.len(),
        all_tokens(values),
        values.len() == 0 ==> from == buf.len(),
        values.len() > 0 ==> buf.subrange(from - 1, buf.len() as int) == spaced(values),
    ensures
        value_tokens(buf, from) == texts(values),
        cursor_after_value(buf, from) == buf.len(),
    decreases values.len(),
{
    if values.len() == 0 {
        assert(texts(values) =~= Seq::empty());
    } else {
        let first = values[0];
        let rest = values.drop_first();
        let tail = buf.subrange(from - 1, buf.len() as int);
        let end = from + first.len();
        assert(is_token(first));
        assert(tail.len() == 1 + first.len() + spaced(rest).len());
        assert(buf[from - 1] == tail[0]);
        assert forall|i: int| from <= i < end implies !is_separator(#[trigger] buf[i]) by {
            assert(buf[i] == tail[i - from + 1]);
            assert(tail[i - from + 1] == first[i - from]);
        }
        if rest.len() > 0 {
            assert(buf[end] == tail[end - from + 1]);
            assert(spaced(rest)[0] == SPACE);
        }
        lemma_token_spans(buf, from, first.len() as int);
        assert(token_bytes(buf, from) =~= first) by {
            assert forall|i: int| 0 <= i < first.len() implies buf[from + i] == first[i] by {
                assert(buf[from + i] == tail[i + 1]);
            }
        }
        let next = cursor_after_token(buf, from);
        assert(all_tokens(rest)) by {
            assert forall|i: int| 0 <= i < rest.len() implies is_token(#[trigger] rest[i]) by {
                assert(rest[i] == values[i + 1]);
            }
        }
        if rest.len() > 0 {
            assert(buf.subrange(next - 1, buf.len() as int) =~= spaced(rest)) by {
                assert forall|i: int| 0 <= i < spaced(rest).len() implies buf[next - 1 + i]
                    == spaced(rest)[i] by {
                    assert(buf[next - 1 + i] == tail[1 + first.len() + i]);
                }
            }
        }
        lemma_reads_values(buf, next, rest);
        assert(texts(values) =~= seq![decode_utf8(first)] + texts(rest));
    }
}

/// A header line that ends the buffer is read as one header, and nothing
/// is left behind it.
pub proof fn lemma_reads_header_line(
    buf: Seq<u8>,
    from: int,
    name: Seq<u8>,
    values: Seq<Seq<u8>>,
)
    requires
        0 <= from <= buf.len(),
        buf.subrange(from, buf.len() as int) == header_line(name, values),
        is_token(name),
        all_tokens(values),
    ensures
        headers_from(buf, from) == Some((seq![header_of(name, values)], buf.len() as int)),
{
    let line = buf.subrange(from, buf.len() as int);
    let end = from + name.len();
    assert(line.len() == name.len() + spaced(values).len());
    assert forall|i: int| from <= i < end implies !is_separator(#[trigger] buf[i]) by {
        assert(buf[i] == line[i - from]);
        assert(line[i - from] == name[i - from]);
    }
    if values.len() > 0 {
        assert(buf[end] == line[end - from]);
        assert(spaced(values)[0] == SPACE);
    }
    lemma_token_spans(buf, from, name.len() as int);
    assert(token_bytes(buf, from) =~= name) by {
        assert forall|i: int| 0 <= i < name.len() implies buf[from + i] == name[i] by {
            assert(buf[from + i] == line[i]);
        }
    }
    let next = cursor_after_token(buf, from);
    if values.len() > 0 {
        assert(buf.subrange(next - 1, buf.len() as int) =~= spaced(values)) by {
            assert forall|i: int| 0 <= i < spaced(values).len() implies buf[next - 1 + i]
                == spaced(values)[i] by {
                assert(buf[next - 1 + i] == line[name.len() + i]);
            }
        }
    }
    lemma_reads_values(buf, next, values);
    assert(buf[from] == name[0]) by {
        assert(buf[from] == line[0]);
    }
    assert(headers_from(buf, buf.len() as int) == Some(
        (Seq::<(Seq<char>, Seq<char>)>::empty(), buf.len() as int),
    ));
    assert(cursor_after_header(buf, from) == buf.len());
    assert(header_at(buf, from) == header_of(name, values));
    assert(seq![header_of(name, values)] + Seq::empty() =~= seq![header_of(name, values)]);
}

/// `longer` is `buf` with a newline and at least one more byte behind it.
pub open spec fn continued(buf: Seq<u8>, longer: Seq<u8>) -> bool {
    &&& buf.len() + 1 < longer.len()
    &&& longer.subrange(0, buf.len() as int) == buf
    &&& longer[buf.len() as int] == NEWLINE
}

/// A request to which a line can be added: it ends in a token.
pub open spec fn ends_in_token(buf: Seq<u8>) -> bool {
    buf.len() > 0 && !is_separator(buf.last())
}

/// Where a cursor of `buf` stands in the longer buffer: where it stood,
/// but for the end of `buf`, which lies in front of the added newline.
pub open spec fn moved(buf: Seq<u8>, cursor: int) -> int {
    if cursor < buf.len() {
        cursor
    } else {
        cursor + 1
    }
}

/// A token of `buf` ends in the longer buffer where it ended in `buf`.
pub proof fn lemma_token_end_continued(buf: Seq<u8>, longer: Seq<u8>, from: int)
    requires
        continued(buf, longer),
        0 <= from <= buf.len(),
    ensures
        token_end(longer, from) == token_end(buf, from),
        token_bytes(longer, from) == token_bytes(buf, from),
    decreases buf.len() - from,
{
    lemma_token_end(buf, from);
    if from < buf.len() {
        assert(buf[from] == longer.subrange(0, buf.len() as int)[from]);
        if !is_separator(buf[from]) {
            lemma_token_end_continued(buf, longer, from + 1);
        }
    }
    assert(token_bytes(longer, from) =~= token_bytes(buf, from)) by {
        assert forall|i: int| from <= i < token_end(buf, from) implies longer[i] == buf[i] by {
            assert(buf[i] == longer.subrange(0, buf.len() as int)[i]);
        }
    }
}

/// Behind a token of `buf` the cursor stands in the longer buffer where it
/// stood in `buf`.
pub proof fn lemma_token_continued(buf: Seq<u8>, longer: Seq<u8>, from: int)
    requires
        continued(buf, longer),
        ends_in_token(buf),
        0 <= from < buf.len(),
        token_end(buf, from) > from,
    ensures
        token_end(longer, from) == token_end(buf, from),
        token_text(longer, from) == token_text(buf, from),
        cursor_after_token(longer, from) == moved(buf, cursor_after_token(buf, from)),
{
    lemma_token_end(buf, from);
    lemma_token_end_continued(buf, longer, from);
}

/// A value of `buf` is read from the longer buffer as it was from `buf`.
pub proof fn lemma_value_continued(buf: Seq<u8>, longer: Seq<u8>, from: int)
    requires
        continued(buf, longer),
        ends_in_token(buf),
        0 < from <= buf.len(),
    ensures
        value_tokens(longer, moved(buf, from)) == value_tokens(buf, from),
        cursor_after_value(longer, moved(buf, from)) == moved(buf, cursor_after_value(buf, from)),
    decreases buf.len() - from,
{
    if from < buf.len() {
        assert(buf[from - 1] == longer.subrange(0, buf.len() as int)[from - 1]);
        lemma_token_end_continued(buf, longer, from);
        if value_continues(buf, from) {
            lemma_token_end(buf, from);
            lemma_token_continued(buf, longer, from);
            lemma_value_continued(buf, longer, cursor_after_token(buf, from));
        }
    }
}

/// The headers of `buf` are read from the longer buffer as they were from
/// `buf`, and the header line that follows them as one more.
pub proof fn lemma_headers_continued(
    buf: Seq<u8>,
    longer: Seq<u8>,
    from: int,
    name: Seq<u8>,
    values: Seq<Seq<u8>>,
)
    requires
        continued(buf, longer),
        ends_in_token(buf),
        !has_blank_line(buf),
        longer.subrange(buf.len() as int + 1, longer.len() as int) == header_line(name, values),
        is_token(name),
        all_tokens(values),
        0 < from <= buf.len(),
        behind_separator(buf, from),
        headers_from(buf, from) is Some,
    ensures
        headers_from(longer, moved(buf, from)) == Some(
            (headers_from(buf, from).unwrap().0.push(header_of(name, values)), longer.len() as int),
        ),
    decreases buf.len() - from,
{
    let added = header_of(name, values);
    if from == buf.len() {
        lemma_reads_header_line(longer, buf.len() as int + 1, name, values);
        assert(Seq::<(Seq<char>, Seq<char>)>::empty().push(added) =~= seq![added]);
    } else {
        assert(buf[from] == longer.subrange(0, buf.len() as int)[from]);
        assert(!blank_line_at(buf, from));
        lemma_token_end(buf, from);
        lemma_token_continued(buf, longer, from);
        let value_start = cursor_after_token(buf, from);
        lemma_value_continued(buf, longer, value_start);
        lemma_behind_header(buf, from);
        let next = cursor_after_header(buf, from);
        assert(header_at(longer, from) == header_at(buf, from));
        assert(cursor_after_header(longer, from) == moved(buf, next));
        lemma_headers_continued(buf, longer, next, name, values);
        let rest = headers_from(buf, next).unwrap().0;
        assert((seq![header_at(buf, from)] + rest).push(added) =~= seq![header_at(buf, from)]
            + rest.push(added));
    }
}

/// Headers keep the order of their lines, and a name may come again: a
/// header line added to a request that has no body and ends in a token
/// leaves what was read as it was and adds one header behind the others.
pub proof fn lemma_header_line_appends(buf: Seq<u8>, name: Seq<u8>, values: Seq<Seq<u8>>)
    requires
        parse(buf) is Ok,
        !has_blank_line(buf),
        ends_in_token(buf),
        is_token(name),
        all_tokens(values),
    ensures
        parse(buf + seq![NEWLINE] + header_line(name, values)) == Ok::<RequestModel, ErrorModel>(
            RequestModel {
                headers: parse(buf)->Ok_0.headers.push(header_of(name, values)),
                ..parse(buf)->Ok_0
            },
        ),
{
    let line = header_line(name, values);
    let longer = buf + seq![NEWLINE] + line;
    let len = buf.len() as int;
    let added = header_of(name, values);
    assert(longer.subrange(0, len) =~= buf);
    assert(longer.subrange(len + 1, longer.len() as int) =~= line);
    assert(continued(buf, longer));
    lemma_behind_request_line(buf);
    lemma_token_end(buf, 0);
    lemma_token_continued(buf, longer, 0);
    lemma_token_end(buf, uri_start(buf));
    lemma_token_continued(buf, longer, uri_start(buf));
    assert(line_end(longer) == moved(buf, line_end(buf)));
    if line_end(buf) < len {
        assert(buf[line_end(buf) - 1] == longer.subrange(0, len)[line_end(buf) - 1]);
        lemma_token_end(buf, line_end(buf));
        lemma_token_end_continued(buf, longer, line_end(buf));
        if token_end(buf, line_end(buf)) > line_end(buf) {
            lemma_token_continued(buf, longer, line_end(buf));
        }
    }
    assert(version_token(longer) == version_token(buf));
    assert(head_end(longer) == moved(buf, head_end(buf)));
    if head_end(buf) < len {
        assert(buf[head_end(buf) - 1] == longer.subrange(0, len)[head_end(buf) - 1]);
        lemma_headers_end(buf, head_end(buf));
    } else {
        assert(headers_from(buf, len) == Some((Seq::<(Seq<char>, Seq<char>)>::empty(), len)));
    }
    lemma_headers_continued(buf, longer, head_end(buf), name, values);
    assert(longer.subrange(longer.len() as int, longer.len() as int) =~= Seq::<u8>::empty());
    assert(buf.subrange(len, len) =~= Seq::<u8>::empty());
    assert(Seq::<(Seq<char>, Seq<char>)>::empty().push(added) =~= seq![added]);
}

} // verus!
