use vstd::prelude::*;
use vstd::utf8::{
    length_of_first_scalar, pop_first_scalar, valid_first_scalar,
    valid_leading_and_continuation_bytes_first_codepoint, valid_utf8,
};

use crate::ttlv::{Error, TryFromValue};
use crate::wire::{
    encode_error, find_path, frame_len, header_len, lemma_first_with_tag, parse,
    TtlvModel, ValueModel, START_BYTE,
};

verus! {

/// Extraction never widens: a 64-bit integer cannot be read from a 32-bit
/// integer, nor text from a byte string.
pub proof fn lemma_no_widening(v: ValueModel)
    ensures
        v is Integer ==> !<i64 as TryFromValue>::spec_accepts(v),
        v is ByteString ==> !<&str as TryFromValue>::spec_accepts(v),
{
}

/// Path lookup takes the first child with the tag: when child `j` is the
/// first so tagged, a one-step path leads to it, whatever later children
/// carry the same tag.
pub proof fn lemma_path_first_match(t: TtlvModel, tag: u16, j: int)
    requires
        t.value is Structure,
        0 <= j < t.value->Structure_0.len(),
        t.value->Structure_0[j].tag == tag,
        forall|k: int| 0 <= k < j ==> t.value->Structure_0[k].tag != tag,
    ensures
        find_path(t, seq![tag]) == Ok::<TtlvModel, Error>(t.value->Structure_0[j]),
{
    let cs = t.value->Structure_0;
    lemma_first_with_tag(cs, tag, j);
    assert(seq![tag].drop_first().len() == 0);
    assert(find_path(cs[j], seq![tag].drop_first()) == Ok::<TtlvModel, Error>(cs[j]));
}

/// No node can be encoded into fewer than sixteen bytes.
pub proof fn lemma_small_buffer(t: TtlvModel, avail: int)
    requires
        avail < 16,
    ensures
        encode_error(t, avail) == Some(Error::InsufficientBufferSize),
{
}

proof fn lemma_utf8_has_no_ff(s: Seq<u8>, i: int)
    requires
        valid_utf8(s),
        0 <= i < s.len(),
    ensures
        s[i] != 0xFF,
    decreases s.len(),
{
    assert(valid_first_scalar(s));
    assert(valid_leading_and_continuation_bytes_first_codepoint(s));
    let n = length_of_first_scalar(s);
    if i >= n {
        assert(pop_first_scalar(s)[i - n] == s[i]);
        lemma_utf8_has_no_ff(pop_first_scalar(s), i - n);
    }
}

/// A text payload that holds the byte `0xFF` is refused as corrupt UTF-8.
pub proof fn lemma_text_with_ff_is_corrupt(b: Seq<u8>, i: int)
    requires
        b.len() >= 8,
        b[0] == START_BYTE,
        b[3] == 7,
        b.len() >= frame_len(b),
        8 <= i < 8 + header_len(b),
        b[i] == 0xFF,
    ensures
        parse(b) == Err::<TtlvModel, Error>(Error::CorruptUtf8),
{
    let body = b.subrange(8, 8 + header_len(b));
    assert(body[i - 8] == 0xFF);
    if valid_utf8(body) {
        lemma_utf8_has_no_ff(body, i - 8);
    }
}

} // verus!
