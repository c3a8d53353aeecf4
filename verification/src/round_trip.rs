//! A request written out line by line is read back as it was written.

use crate::blank_line::{blank_line_at, has_blank_line};
use crate::grammar::{join_tokens, parse, ErrorModel, RequestModel};
use crate::header_lines::{
    all_tokens, ends_in_token, header_line, header_of, is_token, lemma_header_line_appends,
    lemma_token_spans, spaced, texts,
};
use crate::tokenizer::{is_separator, token_bytes, NEWLINE, SPACE};
use vstd::prelude::*;
use vstd::utf8::*;

verus! {

/// A request as the tokens of its lines: the request line's, and for each
/// header the token of its name and the tokens of its value.
pub struct RequestTokens {
    pub method: Seq<u8>,
    pub uri: Seq<u8>,
    pub version: Option<Seq<u8>>,
    pub headers: Seq<(Seq<u8>, Seq<Seq<u8>>)>,
}

impl RequestTokens {
    /// Whether each token is read as one token.
    pub open spec fn well_formed(self) -> bool {
        &&& is_token(self.method)
        &&& is_token(self.uri)
        &&& self.version matches Some(version) ==> is_token(version)
        &&& forall|i: int|
            0 <= i < self.headers.len() ==> is_token((#[trigger] self.headers[i]).0) && all_tokens(
                self.headers[i].1,
            )
    }

    /// The request line.
    pub open spec fn request_line(self) -> Seq<u8> {
        self.method + seq![SPACE] + self.uri + match self.version {
            Some(version) => seq![SPACE] + version,
            None => Seq::empty(),
        }
    }

    /// The request with all but its last header.
    pub open spec fn without_last_header(self) -> RequestTokens {
        RequestTokens { headers: self.headers.drop_last(), ..self }
    }

    /// The request written out: the request line, then one line for each
    /// header, with a newline between each two lines and none at the end.
    pub open spec fn render(self) -> Seq<u8>
        decreases self.headers.len(),
    {
        if self.headers.len() == 0 {
            self.request_line()
        } else {
            self.without_last_header().render() + seq![NEWLINE] + header_line(
                self.headers.last().0,
                self.headers.last().1,
            )
        }
    }

    /// What the request holds, as text.
    pub open spec fn model(self) -> RequestModel {
        RequestModel {
            method: decode_utf8(self.method),
            uri: decode_utf8(self.uri),
            version: match self.version {
                Some(version) => Some(decode_utf8(version)),
                None => None,
            },
            headers: Seq::new(
                self.headers.len(),
                |i: int| header_of(self.headers[i].0, self.headers[i].1),
            ),
            body: Seq::empty(),
        }
    }
}

/// A line of tokens holds no newline and ends in a token.
pub proof fn lemma_spaced_line(first: Seq<u8>, others: Seq<Seq<u8>>)
    requires
        is_token(first),
        all_tokens(others),
    ensures
        forall|i: int|
            0 <= i < header_line(first, others).len() ==> (#[trigger] header_line(
                first,
                others,
            )[i]) != NEWLINE,
        ends_in_token(header_line(first, others)),
        header_line(first, others).len() > 0,
    decreases others.len(),
{
    let line = header_line(first, others);
    if others.len() > 0 {
        let second = others[0];
        let rest = others.drop_first();
        assert(is_token(second));
        assert(all_tokens(rest)) by {
            assert forall|i: int| 0 <= i < rest.len() implies is_token(#[trigger] rest[i]) by {
                assert(rest[i] == others[i + 1]);
            }
        }
        lemma_spaced_line(second, rest);
        let tail = header_line(second, rest);
        assert(line =~= first + seq![SPACE] + tail);
        assert forall|i: int| 0 <= i < line.len() implies (#[trigger] line[i]) != NEWLINE by {
            if i < first.len() {
                assert(line[i] == first[i]);
            } else if i > first.len() {
                assert(line[i] == tail[i - first.len() - 1]);
            }
        }
        assert(line.last() == tail.last());
    } else {
        assert(line =~= first);
    }
}

/// The request line alone is read as a request without headers.
pub proof fn lemma_reads_request_line(tokens: RequestTokens)
    requires
        tokens.well_formed(),
        tokens.headers.len() == 0,
    ensures
        parse(tokens.render()) == Ok::<RequestModel, ErrorModel>(tokens.model()),
{
    let buf = tokens.render();
    let method = tokens.method;
    let uri = tokens.uri;
    let uri_at = method.len() as int + 1;
    let uri_end = uri_at + uri.len();
    assert forall|i: int| 0 <= i < method.len() implies !is_separator(#[trigger] buf[i]) by {
        assert(buf[i] == method[i]);
    }
    assert(buf[method.len() as int] == SPACE);
    lemma_token_spans(buf, 0, method.len() as int);
    assert(token_bytes(buf, 0) =~= method);
    assert forall|i: int| uri_at <= i < uri_end implies !is_separator(#[trigger] buf[i]) by {
        assert(buf[i] == uri[i - uri_at]);
    }
    if tokens.version is Some {
        let version = tokens.version->Some_0;
        let version_at = uri_end + 1;
        assert(buf[uri_end] == SPACE);
        lemma_token_spans(buf, uri_at, uri.len() as int);
        assert forall|i: int| version_at <= i < buf.len() implies !is_separator(
            #[trigger] buf[i],
        ) by {
            assert(buf[i] == version[i - version_at]);
        }
        lemma_token_spans(buf, version_at, version.len() as int);
        assert(token_bytes(buf, version_at) =~= version);
    } else {
        lemma_token_spans(buf, uri_at, uri.len() as int);
    }
    assert(token_bytes(buf, uri_at) =~= uri);
    assert(tokens.model().headers =~= Seq::empty());
}

/// A request written out holds no blank line and ends in a token.
pub proof fn lemma_render_has_no_blank_line(tokens: RequestTokens)
    requires
        tokens.well_formed(),
    ensures
        !has_blank_line(tokens.render()),
        ends_in_token(tokens.render()),
    decreases tokens.headers.len(),
{
    let buf = tokens.render();
    if tokens.headers.len() == 0 {
        let others = match tokens.version {
            Some(version) => seq![tokens.uri, version],
            None => seq![tokens.uri],
        };
        let behind_uri = others.drop_first();
        if tokens.version is Some {
            assert(behind_uri.len() == 1);
            assert(spaced(behind_uri.drop_first()) =~= Seq::empty());
            assert(spaced(behind_uri) =~= seq![SPACE] + tokens.version->Some_0);
        } else {
            assert(spaced(behind_uri) =~= Seq::empty());
        }
        assert(spaced(others) =~= seq![SPACE] + tokens.uri + spaced(behind_uri));
        assert(buf =~= header_line(tokens.method, others));
        assert(all_tokens(others));
        lemma_spaced_line(tokens.method, others);
        assert forall|at: int| !blank_line_at(buf, at) by {}
    } else {
        let before = tokens.without_last_header();
        let head = before.render();
        let (name, values) = tokens.headers.last();
        let line = header_line(name, values);
        assert(before.well_formed()) by {
            assert forall|i: int| 0 <= i < before.headers.len() implies is_token(
                (#[trigger] before.headers[i]).0,
            ) && all_tokens(before.headers[i].1) by {
                assert(before.headers[i] == tokens.headers[i]);
            }
        }
        lemma_render_has_no_blank_line(before);
        lemma_spaced_line(name, values);
        assert forall|at: int| !blank_line_at(buf, at) by {
            if 0 < at < buf.len() {
                if at < head.len() {
                    assert(buf[at] == head[at]);
                    assert(buf[at - 1] == head[at - 1]);
                    assert(!blank_line_at(head, at));
                } else if at == head.len() {
                    assert(buf[at - 1] == head.last());
                } else {
                    assert(buf[at] == line[at - head.len() - 1]);
                }
            }
        }
        assert(buf.last() == line.last());
    }
}

/// A request written out line by line is read back as it was written:
/// each header where its line stood, also where a name comes again.
pub proof fn lemma_round_trip(tokens: RequestTokens)
    requires
        tokens.well_formed(),
    ensures
        parse(tokens.render()) == Ok::<RequestModel, ErrorModel>(tokens.model()),
    decreases tokens.headers.len(),
{
    if tokens.headers.len() == 0 {
        lemma_reads_request_line(tokens);
    } else {
        let before = tokens.without_last_header();
        let (name, values) = tokens.headers.last();
        assert(before.well_formed()) by {
            assert forall|i: int| 0 <= i < before.headers.len() implies is_token(
                (#[trigger] before.headers[i]).0,
            ) && all_tokens(before.headers[i].1) by {
                assert(before.headers[i] == tokens.headers[i]);
            }
        }
        lemma_round_trip(before);
        lemma_render_has_no_blank_line(before);
        lemma_header_line_appends(before.render(), name, values);
        assert(tokens.model().headers =~= before.model().headers.push(header_of(name, values)));
    }
}

/// Whether a text holds neither a space nor a newline.
pub open spec fn unbroken(text: Seq<char>) -> bool {
    forall|i: int| 0 <= i < text.len() ==> (#[trigger] text[i]) != ' ' && text[i] != '\n'
}

/// Whether each of `words` is a word: a text of at least one character
/// that holds neither a space nor a newline.
pub open spec fn all_words(words: Seq<Seq<char>>) -> bool {
    forall|i: int| 0 <= i < words.len() ==> (#[trigger] words[i]).len() > 0 && unbroken(words[i])
}

/// A request as text: the request line's words, and for each header its
/// name and the words of its value.
pub struct RequestWords {
    pub method: Seq<char>,
    pub uri: Seq<char>,
    pub version: Option<Seq<char>>,
    pub headers: Seq<(Seq<char>, Seq<Seq<char>>)>,
}

impl RequestWords {
    /// Whether the request can be written: the words of the request line
    /// and of the values are words indeed, and no name holds a space or a
    /// newline.
    pub open spec fn well_formed(self) -> bool {
        &&& self.method.len() > 0 && unbroken(self.method)
        &&& self.uri.len() > 0 && unbroken(self.uri)
        &&& self.version matches Some(version) ==> version.len() > 0 && unbroken(version)
        &&& forall|i: int|
            0 <= i < self.headers.len() ==> unbroken((#[trigger] self.headers[i]).0) && all_words(
                self.headers[i].1,
            )
    }

    /// The tokens that the request is written with: each word in UTF-8,
    /// and a colon behind each name.
    pub open spec fn tokens(self) -> RequestTokens {
        RequestTokens {
            method: encode_utf8(self.method),
            uri: encode_utf8(self.uri),
            version: match self.version {
                Some(version) => Some(encode_utf8(version)),
                None => None,
            },
            headers: Seq::new(
                self.headers.len(),
                |i: int|
                    (
                        encode_utf8(self.headers[i].0.push(':')),
                        Seq::new(
                            self.headers[i].1.len(),
                            |j: int| encode_utf8(self.headers[i].1[j]),
                        ),
                    ),
            ),
        }
    }

    /// What the request holds: each header with its value's words joined.
    pub open spec fn model(self) -> RequestModel {
        RequestModel {
            method: self.method,
            uri: self.uri,
            version: self.version,
            headers: Seq::new(
                self.headers.len(),
                |i: int| (self.headers[i].0, join_tokens(self.headers[i].1)),
            ),
            body: Seq::empty(),
        }
    }
}

/// The UTF-8 encoding of a character that is neither a space nor a newline
/// holds neither of the two bytes.
pub proof fn lemma_scalar_has_no_separator(c: char)
    requires
        c != ' ',
        c != '\n',
    ensures
        encode_scalar(c as u32).len() > 0,
        forall|i: int|
            0 <= i < encode_scalar(c as u32).len() ==> !is_separator(
                #[trigger] encode_scalar(c as u32)[i],
            ),
{
    let s = c as u32;
    let low = (s & 0x3F) as u8;
    let mid = ((s >> 6) & 0x3F) as u8;
    let high = ((s >> 12) & 0x3F) as u8;
    let two = ((s >> 6) & 0x1F) as u8;
    let three = ((s >> 12) & 0x0F) as u8;
    let four = ((s >> 18) & 0x7) as u8;
    assert(s <= 0x7F && s != 0x20 && s != 0x0A ==> (s & 0x7F) as u8 != 0x20 && (s & 0x7F) as u8
        != 0x0A) by (bit_vector);
    assert((0x80u8 | low) >= 0x80) by (bit_vector);
    assert((0x80u8 | mid) >= 0x80) by (bit_vector);
    assert((0x80u8 | high) >= 0x80) by (bit_vector);
    assert((0xC0u8 | two) >= 0x80) by (bit_vector);
    assert((0xE0u8 | three) >= 0x80) by (bit_vector);
    assert((0xF0u8 | four) >= 0x80) by (bit_vector);
}

/// A word in UTF-8 is read as one token.
pub proof fn lemma_word_is_token(word: Seq<char>)
    requires
        word.len() > 0,
        unbroken(word),
    ensures
        is_token(encode_utf8(word)),
    decreases word.len(),
{
    let rest = word.drop_first();
    let first = encode_scalar(word[0] as u32);
    lemma_scalar_has_no_separator(word[0]);
    if rest.len() > 0 {
        assert(unbroken(rest)) by {
            assert forall|i: int| 0 <= i < rest.len() implies (#[trigger] rest[i]) != ' '
                && rest[i] != '\n' by {
                assert(rest[i] == word[i + 1]);
            }
        }
        lemma_word_is_token(rest);
    } else {
        assert(encode_utf8(rest) =~= Seq::empty());
    }
    let bytes = encode_utf8(word);
    assert(bytes == first + encode_utf8(rest));
    assert forall|i: int| 0 <= i < bytes.len() implies !is_separator(#[trigger] bytes[i]) by {
        if i < first.len() {
            assert(bytes[i] == first[i]);
        } else {
            assert(bytes[i] == encode_utf8(rest)[i - first.len()]);
        }
    }
}

/// A request written out as text is read back as it was written: the
/// headers in the order of their lines, each name as often as it stood
/// there.
pub proof fn lemma_text_round_trip(words: RequestWords)
    requires
        words.well_formed(),
    ensures
        parse(words.tokens().render()) == Ok::<RequestModel, ErrorModel>(words.model()),
{
    let tokens = words.tokens();
    lemma_word_is_token(words.method);
    lemma_word_is_token(words.uri);
    encode_utf8_decode_utf8(words.method);
    encode_utf8_decode_utf8(words.uri);
    if words.version is Some {
        lemma_word_is_token(words.version->Some_0);
        encode_utf8_decode_utf8(words.version->Some_0);
    }
    assert forall|i: int| 0 <= i < tokens.headers.len() implies is_token(
        (#[trigger] tokens.headers[i]).0,
    ) && all_tokens(tokens.headers[i].1) && header_of(tokens.headers[i].0, tokens.headers[i].1) == (
        words.headers[i].0,
        join_tokens(words.headers[i].1),
    ) by {
        let (name, value) = words.headers[i];
        let (name_token, value_tokens) = tokens.headers[i];
        assert(unbroken(name) && all_words(value));
        let with_colon = name.push(':');
        assert(unbroken(with_colon)) by {
            assert forall|k: int| 0 <= k < with_colon.len() implies (#[trigger] with_colon[k])
                != ' ' && with_colon[k] != '\n' by {
                if k < name.len() {
                    assert(with_colon[k] == name[k]);
                }
            }
        }
        lemma_word_is_token(with_colon);
        encode_utf8_decode_utf8(with_colon);
        assert(with_colon.drop_last() =~= name);
        assert forall|j: int| 0 <= j < value_tokens.len() implies is_token(
            #[trigger] value_tokens[j],
        ) && decode_utf8(value_tokens[j]) == value[j] by {
            assert(value[j].len() > 0 && unbroken(value[j]));
            lemma_word_is_token(value[j]);
            encode_utf8_decode_utf8(value[j]);
        }
        assert(texts(value_tokens) =~= value);
    }
    lemma_round_trip(tokens);
    assert(tokens.model().headers =~= words.model().headers);
}

} // verus!
