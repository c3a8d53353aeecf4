//! Byte ranges as text: what it takes to turn a piece of a UTF-8 buffer
//! into a `String`.

use vstd::prelude::*;
use vstd::slice::*;
use vstd::string::*;
use vstd::utf8::*;

verus! {

/// `core::str::Utf8Error`, which says why a slice is no UTF-8. It is
/// carried, and never looked into.
#[verifier::external_type_specification]
#[verifier::external_body]
pub struct ExUtf8Error(core::str::Utf8Error);

/// `core::str::from_utf8` is trusted to accept exactly the byte slices that
/// are well-formed UTF-8, and to hand back a string slice over the same
/// bytes.
pub assume_specification[ core::str::from_utf8 ](v: &[u8]) -> (r: Result<
    &str,
    core::str::Utf8Error,
>)
    ensures
        r is Ok <==> valid_utf8(v@),
        r matches Ok(s) ==> s.spec_bytes() == v@,
;

/// A byte below `0x80` stands for itself: the buffer can be cut before it.
pub proof fn lemma_cut_before_ascii(bytes: Seq<u8>, at: int)
    requires
        valid_utf8(bytes),
        0 <= at <= bytes.len(),
        at < bytes.len() ==> bytes[at] < 0x80,
    ensures
        valid_utf8(bytes.subrange(0, at)),
        valid_utf8(bytes.subrange(at, bytes.len() as int)),
{
    if at < bytes.len() {
        is_char_boundary_iff_is_leading_byte(bytes, at);
    } else {
        is_char_boundary_start_end_of_seq(bytes);
    }
    valid_utf8_split(bytes, at);
}

/// A byte below `0x80` is a character of its own: what follows it is
/// well-formed too.
pub proof fn lemma_cut_after_ascii(bytes: Seq<u8>)
    requires
        valid_utf8(bytes),
        bytes.len() > 0,
        bytes[0] < 0x80,
    ensures
        valid_utf8(bytes.subrange(1, bytes.len() as int)),
{
    assert(length_of_first_scalar(bytes) == 1);
    assert(pop_first_scalar(bytes) == bytes.subrange(1, bytes.len() as int));
}

/// A well-formed encoding of at least one byte holds at least one
/// character.
pub proof fn lemma_decode_nonempty(bytes: Seq<u8>)
    requires
        valid_utf8(bytes),
        bytes.len() > 0,
    ensures
        decode_utf8(bytes).len() > 0,
{
}

/// The text that a well-formed byte slice encodes.
pub(crate) fn text_of(bytes: &[u8]) -> (s: String)
    requires
        valid_utf8(bytes@),
    ensures
        s@ == decode_utf8(bytes@),
{
    match core::str::from_utf8(bytes) {
        Ok(text) => {
            proof {
                encode_utf8_decode_utf8(text@);
            }
            text.to_owned()
        },
        Err(_) => vstd::pervasive::unreached(),
    }
}

/// Whether two texts are the same, decided on their bytes.
pub fn same_text(a: &str, b: &str) -> (same: bool)
    ensures
        same == (a@ == b@),
{
    let x = a.as_bytes();
    let y = b.as_bytes();
    proof {
        encode_utf8_decode_utf8(a@);
        encode_utf8_decode_utf8(b@);
    }
    if x.len() != y.len() {
        return false;
    }
    let mut i: usize = 0;
    while i < x.len()
        invariant
            i <= x@.len() == y@.len(),
            x@.take(i as int) == y@.take(i as int),
            x@ == encode_utf8(a@),
            y@ == encode_utf8(b@),
            decode_utf8(x@) == a@,
            decode_utf8(y@) == b@,
        decreases x@.len() - i,
    {
        if x[i] != y[i] {
            return false;
        }
        assert(x@.take(i + 1) =~= x@.take(i as int).push(x@[i as int]));
        assert(y@.take(i + 1) =~= y@.take(i as int).push(y@[i as int]));
        i += 1;
    }
    assert(x@ =~= x@.take(x@.len() as int));
    assert(y@ =~= y@.take(y@.len() as int));
    true
}

} // verus!
