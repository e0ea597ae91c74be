use vstd::prelude::*;

use crate::ttlv::Error;
use vstd::utf8::valid_utf8;

use crate::util::{
    be16, be32, be64, from_be16, from_be32, from_be64, lemma_be16_round_trip, lemma_be32_round_trip,
    lemma_be64_round_trip, lemma_i32_round_trip, lemma_i64_round_trip, lemma_padded_len_fits,
    spec_padded_len,
};

verus! {

/// The first byte of every encoded node.
pub const START_BYTE: u8 = 0x42;

/// The mathematical content of a node: text is held as its UTF-8 bytes.
pub struct TtlvModel {
    pub tag: u16,
    pub value: ValueModel,
}

/// The mathematical content of a value.
pub enum ValueModel {
    Structure(Seq<TtlvModel>),
    Integer(i32),
    LongInteger(i64),
    BigInteger(Seq<u8>),
    Enumeration(u32),
    Boolean(bool),
    TextString(Seq<u8>),
    ByteString(Seq<u8>),
    DateTime(i64),
    Interval(u32),
}

/// `n` zero bytes.
pub open spec fn zeros(n: int) -> Seq<u8> {
    Seq::new(n as nat, |i: int| 0u8)
}

/// `b` followed by the zero bytes that bring it to a multiple of eight.
pub open spec fn pad(b: Seq<u8>) -> Seq<u8> {
    b + zeros(spec_padded_len(b.len() as int) - b.len())
}

/// The concatenation of a sequence of byte strings.
pub open spec fn concat(parts: Seq<Seq<u8>>) -> Seq<u8>
    decreases parts.len(),
{
    if parts.len() == 0 {
        seq![]
    } else {
        concat(parts.drop_last()) + parts.last()
    }
}

/// The type code that announces a kind of value on the wire.
pub open spec fn type_code(v: ValueModel) -> u8 {
    match v {
        ValueModel::Structure(_) => 1,
        ValueModel::Integer(_) => 2,
        ValueModel::LongInteger(_) => 3,
        ValueModel::BigInteger(_) => 4,
        ValueModel::Enumeration(_) => 5,
        ValueModel::Boolean(_) => 6,
        ValueModel::TextString(_) => 7,
        ValueModel::ByteString(_) => 8,
        ValueModel::DateTime(_) => 9,
        ValueModel::Interval(_) => 10,
    }
}

/// The eight header bytes: start byte, tag, type code and declared length.
pub open spec fn header(tag: u16, code: u8, len: int) -> Seq<u8> {
    seq![START_BYTE] + be16(tag) + seq![code] + be32(len as u32)
}

/// The encodings of a structure's children, in order.
pub open spec fn child_encodings(cs: Seq<TtlvModel>) -> Seq<Seq<u8>>
    decreases cs,
{
    Seq::new(cs.len(), |i: int| if 0 <= i < cs.len() { encoding(cs[i]) } else { seq![] })
}

/// The payload of a value before padding is counted: its declared length is
/// the length of this sequence for every kind but the 32-bit ones.
pub open spec fn payload(v: ValueModel) -> Seq<u8>
    decreases v,
{
    match v {
        ValueModel::Structure(cs) => concat(child_encodings(cs)),
        ValueModel::Integer(x) => be32(x as u32) + zeros(4),
        ValueModel::LongInteger(x) => be64(x as u64),
        ValueModel::BigInteger(b) => pad(b),
        ValueModel::Enumeration(x) => be32(x) + zeros(4),
        ValueModel::Boolean(x) => be64(if x { 1 } else { 0 }),
        ValueModel::TextString(b) => pad(b),
        ValueModel::ByteString(b) => pad(b),
        ValueModel::DateTime(x) => be64(x as u64),
        ValueModel::Interval(x) => be32(x) + zeros(4),
    }
}

/// The length that the header of a value declares.
pub open spec fn declared_len(v: ValueModel) -> int
    decreases v,
{
    match v {
        ValueModel::Structure(cs) => concat(child_encodings(cs)).len() as int,
        ValueModel::Integer(_) | ValueModel::Enumeration(_) | ValueModel::Interval(_) => 4,
        ValueModel::LongInteger(_) | ValueModel::Boolean(_) | ValueModel::DateTime(_) => 8,
        ValueModel::BigInteger(b) | ValueModel::TextString(b) | ValueModel::ByteString(b) => b.len() as int,
    }
}

/// The bytes that encode a node.
pub open spec fn encoding(t: TtlvModel) -> Seq<u8>
    decreases t,
{
    header(t.tag, type_code(t.value), declared_len(t.value)) + payload(t.value)
}

/// The first error of a sequence of outcomes, if any.
pub open spec fn first_error(s: Seq<Option<Error>>) -> Option<Error>
    decreases s.len(),
{
    if s.len() == 0 {
        None
    } else if s[0] is Some {
        s[0]
    } else {
        first_error(s.drop_first())
    }
}

/// The outcomes of encoding a structure's children one after another into
/// `room` bytes, each at the offset where the previous ones end.
pub open spec fn child_errors(cs: Seq<TtlvModel>, room: int) -> Seq<Option<Error>>
    decreases cs, 2int,
{
    Seq::new(
        cs.len(),
        |i: int|
            if 0 <= i < cs.len() {
                encode_error(cs[i], room - concat(child_encodings(cs).take(i)).len())
            } else {
                None
            },
    )
}

/// Why writing the payload of `t` fails when `avail` bytes are left for the
/// whole node, sixteen at least: a big integer cannot be encoded, and a text
/// or byte payload needs room for its padded length.
pub open spec fn payload_error(t: TtlvModel, avail: int) -> Option<Error>
    decreases t, 0int,
{
    match t.value {
        ValueModel::Structure(cs) => first_error(child_errors(cs, avail - 8)),
        ValueModel::BigInteger(_) => Some(Error::UnsupportedType),
        ValueModel::TextString(b) | ValueModel::ByteString(b) => if avail - 8 < spec_padded_len(
            b.len() as int,
        ) {
            Some(Error::InsufficientBufferSize)
        } else {
            None
        },
        _ => None,
    }
}

/// Why encoding `t` into `avail` bytes fails, or `None` when it succeeds.
/// Each node needs sixteen bytes to start with, its payload must be written,
/// and its declared length must fit the 32-bit length field.
pub open spec fn encode_error(t: TtlvModel, avail: int) -> Option<Error>
    decreases t, 1int,
{
    if avail < 16 {
        Some(Error::InsufficientBufferSize)
    } else if payload_error(t, avail) is Some {
        payload_error(t, avail)
    } else if declared_len(t.value) > u32::MAX {
        Some(Error::UnsupportedType)
    } else {
        None
    }
}

/// The length that the header at the start of `b` declares.
pub open spec fn header_len(b: Seq<u8>) -> int {
    from_be32(b.subrange(4, 8)) as int
}

/// The number of bytes that the node at the start of `b` occupies.
pub open spec fn frame_len(b: Seq<u8>) -> int {
    8 + spec_padded_len(header_len(b))
}

/// The number of payload bytes that a fixed-width kind reads.
pub open spec fn fixed_width(code: u8) -> int {
    if code == 2 || code == 5 || code == 10 {
        4
    } else if code == 3 || code == 6 || code == 9 {
        8
    } else {
        0
    }
}

/// The node at the start of `b`, or why none can be read there. The buffer
/// must hold the header, the padded payload that the header declares and,
/// for the fixed-width kinds, the bytes that are read from the payload.
pub open spec fn parse(b: Seq<u8>) -> Result<TtlvModel, Error>
    decreases b.len(), 0nat,
{
    if b.len() < 8 {
        Err(Error::InsufficientBufferSize)
    } else if b[0] != START_BYTE {
        Err(Error::MissingStartByte)
    } else if b[3] < 1 || b[3] > 10 {
        Err(Error::UnsupportedType)
    } else if b.len() < frame_len(b) || b.len() < 8 + fixed_width(b[3]) {
        Err(Error::InsufficientBufferSize)
    } else {
        let tag = from_be16(b.subrange(1, 3));
        let body = b.subrange(8, 8 + header_len(b));
        let code = b[3];
        if code == 7 && !valid_utf8(body) {
            Err(Error::CorruptUtf8)
        } else {
            let value = if code == 1 {
                ValueModel::Structure(parse_children(body))
            } else if code == 2 {
                ValueModel::Integer(from_be32(b.subrange(8, 12)) as i32)
            } else if code == 3 {
                ValueModel::LongInteger(from_be64(b.subrange(8, 16)) as i64)
            } else if code == 4 {
                ValueModel::BigInteger(body)
            } else if code == 5 {
                ValueModel::Enumeration(from_be32(b.subrange(8, 12)))
            } else if code == 6 {
                ValueModel::Boolean(from_be64(b.subrange(8, 16)) != 0)
            } else if code == 7 {
                ValueModel::TextString(body)
            } else if code == 8 {
                ValueModel::ByteString(body)
            } else if code == 9 {
                ValueModel::DateTime(from_be64(b.subrange(8, 16)) as i64)
            } else {
                ValueModel::Interval(from_be32(b.subrange(8, 12)))
            };
            Ok(TtlvModel { tag, value })
        }
    }
}

/// The children read one after another from the start of `r`, up to the
/// first place where no node can be read.
pub open spec fn parse_children(r: Seq<u8>) -> Seq<TtlvModel>
    decreases r.len(), 1nat,
{
    if parse(r) is Ok && 8 <= frame_len(r) <= r.len() {
        seq![parse(r)->Ok_0] + parse_children(r.subrange(frame_len(r), r.len() as int))
    } else {
        seq![]
    }
}

/// The index of the first node in `cs` tagged `tag`, or the length of `cs`
/// when there is none.
pub open spec fn first_with_tag(cs: Seq<TtlvModel>, tag: u16) -> int
    decreases cs.len(),
{
    if cs.len() == 0 || cs[0].tag == tag {
        0
    } else {
        1 + first_with_tag(cs.drop_first(), tag)
    }
}

/// The node reached from `t` by following `tags`: at each step the first
/// child that carries the next tag.
pub open spec fn find_path(t: TtlvModel, tags: Seq<u16>) -> Result<TtlvModel, Error>
    decreases tags.len(),
{
    if tags.len() == 0 {
        Ok(t)
    } else {
        match t.value {
            ValueModel::Structure(cs) => {
                let k = first_with_tag(cs, tags[0]);
                if k >= cs.len() {
                    Err(Error::ChildNotFound)
                } else {
                    find_path(cs[k], tags.drop_first())
                }
            },
            _ => Err(Error::TypeMismatch),
        }
    }
}

/// `i` is the first index of `cs` whose node is tagged `tag` when no node
/// before it is, and it is either the end or tagged `tag` itself.
pub proof fn lemma_first_with_tag(cs: Seq<TtlvModel>, tag: u16, i: int)
    requires
        0 <= i <= cs.len(),
        forall|k: int| 0 <= k < i ==> cs[k].tag != tag,
        i == cs.len() || cs[i].tag == tag,
    ensures
        first_with_tag(cs, tag) == i,
    decreases cs.len(),
{
    if cs.len() > 0 && i > 0 {
        assert forall|k: int| 0 <= k < i - 1 implies cs.drop_first()[k].tag != tag by {
            assert(cs[k + 1].tag != tag);
        }
        lemma_first_with_tag(cs.drop_first(), tag, i - 1);
    }
}

/// A node that can be read lies within the buffer.
pub proof fn lemma_frame_fits(b: Seq<u8>)
    requires
        parse(b) is Ok,
    ensures
        8 <= frame_len(b) <= b.len(),
{
    lemma_padded_len_fits(header_len(b), 0);
}

/// Concatenating one more part appends it.
pub proof fn lemma_concat_take(parts: Seq<Seq<u8>>, i: int)
    requires
        0 <= i < parts.len(),
    ensures
        concat(parts.take(i + 1)) == concat(parts.take(i)) + parts[i],
{
    assert(parts.take(i + 1).drop_last() =~= parts.take(i));
}

/// When no outcome before `i` is an error, the first error is the outcome at
/// `i` (or none at all, when `i` is the end).
pub proof fn lemma_first_error(s: Seq<Option<Error>>, i: int)
    requires
        0 <= i <= s.len(),
        forall|k: int| 0 <= k < i ==> s[k] is None,
    ensures
        i < s.len() ==> first_error(s) == s[i] || s[i] is None,
        i < s.len() && s[i] is Some ==> first_error(s) == s[i],
        i == s.len() ==> first_error(s) is None,
    decreases s.len(),
{
    if s.len() > 0 && i > 0 {
        assert forall|k: int| 0 <= k < i - 1 implies s.drop_first()[k] is None by {
            assert(s[k + 1] is None);
        }
        lemma_first_error(s.drop_first(), i - 1);
    }
}

/// Parts that are multiples of eight bytes concatenate to one.
pub proof fn lemma_concat_len(parts: Seq<Seq<u8>>)
    requires
        forall|k: int| 0 <= k < parts.len() ==> #[trigger] parts[k].len() % 8 == 0,
    ensures
        concat(parts).len() % 8 == 0,
    decreases parts.len(),
{
    if parts.len() > 0 {
        lemma_concat_len(parts.drop_last());
    }
}

/// Every encoding is an eight-byte header followed by the payload padded to
/// a multiple of eight: `8 + padded_len(declared length)` bytes in all, and
/// so itself a multiple of eight.
pub proof fn lemma_encoding_len(t: TtlvModel)
    ensures
        encoding(t).len() == 8 + payload(t.value).len(),
        payload(t.value).len() == spec_padded_len(declared_len(t.value)),
        encoding(t).len() % 8 == 0,
    decreases t,
{
    lemma_padded_len_fits(declared_len(t.value), 0);
    match t.value {
        ValueModel::Structure(cs) => {
            let encs = child_encodings(cs);
            assert forall|k: int| 0 <= k < encs.len() implies #[trigger] encs[k].len() % 8 == 0 by {
                lemma_encoding_len(cs[k]);
            }
            lemma_concat_len(encs);
        },
        _ => {},
    }
}

/// A node that can be encoded and read back: it holds no big integer, its
/// text is valid UTF-8, and every declared length fits in 32 bits.
pub open spec fn encodable(t: TtlvModel) -> bool
    decreases t,
{
    &&& declared_len(t.value) <= u32::MAX
    &&& match t.value {
        ValueModel::Structure(cs) => forall|k: int| 0 <= k < cs.len() ==> encodable(#[trigger] cs[k]),
        ValueModel::BigInteger(_) => false,
        ValueModel::TextString(b) => valid_utf8(b),
        _ => true,
    }
}

/// Concatenation seen from the front.
pub proof fn lemma_concat_first(parts: Seq<Seq<u8>>)
    requires
        parts.len() > 0,
    ensures
        concat(parts) == parts[0] + concat(parts.drop_first()),
    decreases parts.len(),
{
    if parts.len() > 1 {
        let dl = parts.drop_last();
        lemma_concat_first(dl);
        assert(dl.drop_first() =~= parts.drop_first().drop_last());
        assert(parts.drop_first().last() == parts.last());
        assert(concat(parts.drop_first()) == concat(dl.drop_first()) + parts.last());
        assert(concat(parts) =~= parts[0] + concat(parts.drop_first()));
    } else {
        assert(parts.drop_first().len() == 0);
        assert(parts.drop_last().len() == 0);
        assert(concat(parts.drop_first()) =~= Seq::<u8>::empty());
        assert(concat(parts.drop_last()) =~= Seq::<u8>::empty());
        assert(concat(parts) =~= parts[0] + concat(parts.drop_first()));
    }
}

proof fn lemma_children_round_trip(cs: Seq<TtlvModel>, i: int)
    requires
        0 <= i <= cs.len(),
        forall|k: int| 0 <= k < cs.len() ==> encodable(#[trigger] cs[k]),
    ensures
        parse_children(concat(child_encodings(cs).subrange(i, cs.len() as int))) == cs.subrange(
            i,
            cs.len() as int,
        ),
    decreases cs, cs.len() - i,
{
    let encs = child_encodings(cs);
    let parts = encs.subrange(i, cs.len() as int);
    if i == cs.len() {
        assert(parts.len() == 0);
        assert(cs.subrange(i, cs.len() as int) =~= Seq::<TtlvModel>::empty());
    } else {
        let tail = concat(encs.subrange(i + 1, cs.len() as int));
        lemma_concat_first(parts);
        assert(parts.drop_first() =~= encs.subrange(i + 1, cs.len() as int));
        let r = concat(parts);
        assert(r == encoding(cs[i]) + tail);
        lemma_round_trip(cs[i], tail);
        lemma_encoding_len(cs[i]);
        assert(r.subrange(frame_len(r), r.len() as int) =~= tail);
        lemma_children_round_trip(cs, i + 1);
        assert(cs.subrange(i, cs.len() as int) =~= seq![cs[i]] + cs.subrange(i + 1, cs.len() as int));
    }
}

/// The header of an encoding announces its node: start byte, type code,
/// tag, and a length field whose padded value plus the eight header bytes is
/// the size of the encoding, whatever bytes follow it.
pub proof fn lemma_header_round_trip(t: TtlvModel, rest: Seq<u8>)
    requires
        declared_len(t.value) <= u32::MAX,
    ensures
        ({
            let b = encoding(t) + rest;
            &&& b.len() >= 8
            &&& b[0] == START_BYTE
            &&& b[3] == type_code(t.value)
            &&& from_be16(b.subrange(1, 3)) == t.tag
            &&& header_len(b) == declared_len(t.value)
            &&& frame_len(b) == encoding(t).len()
            &&& b.len() >= frame_len(b)
            &&& b.len() >= 8 + fixed_width(b[3])
            &&& b.subrange(8, frame_len(b)) == payload(t.value)
        }),
{
    let e = encoding(t);
    let b = e + rest;
    let len = declared_len(t.value);
    lemma_encoding_len(t);
    lemma_padded_len_fits(len, 0);
    lemma_be16_round_trip(t.tag);
    lemma_be32_round_trip(len as u32);
    assert(b.subrange(1, 3) =~= be16(t.tag));
    assert(b.subrange(4, 8) =~= be32(len as u32));
    assert(b.subrange(8, frame_len(b)) =~= payload(t.value));
}

/// Reading back what encoding writes gives the node again, and reads as
/// many bytes as were written, whatever bytes follow them.
pub proof fn lemma_round_trip(t: TtlvModel, rest: Seq<u8>)
    requires
        encodable(t),
    ensures
        parse(encoding(t) + rest) == Ok::<TtlvModel, Error>(t),
        frame_len(encoding(t) + rest) == encoding(t).len(),
    decreases t, 0int,
{
    let b = encoding(t) + rest;
    let len = declared_len(t.value);
    lemma_header_round_trip(t, rest);
    let p = b.subrange(8, frame_len(b));
    let body = b.subrange(8, 8 + len);
    assert(body =~= p.subrange(0, len));
    match t.value {
        ValueModel::Structure(cs) => {
            lemma_children_round_trip(cs, 0);
            assert(child_encodings(cs).subrange(0, cs.len() as int) =~= child_encodings(cs));
            assert(cs.subrange(0, cs.len() as int) =~= cs);
            assert(body =~= concat(child_encodings(cs)));
        },
        ValueModel::Integer(x) => {
            assert(b.subrange(8, 12) =~= p.subrange(0, 4));
            assert(p.subrange(0, 4) =~= be32(x as u32));
            lemma_be32_round_trip(x as u32);
            lemma_i32_round_trip(x);
        },
        ValueModel::LongInteger(x) => {
            assert(b.subrange(8, 16) =~= p.subrange(0, 8));
            lemma_be64_round_trip(x as u64);
            lemma_i64_round_trip(x);
        },
        ValueModel::Enumeration(x) => {
            assert(b.subrange(8, 12) =~= p.subrange(0, 4));
            assert(p.subrange(0, 4) =~= be32(x));
            lemma_be32_round_trip(x);
        },
        ValueModel::Boolean(x) => {
            assert(b.subrange(8, 16) =~= p.subrange(0, 8));
            lemma_be64_round_trip(if x { 1 } else { 0 });
        },
        ValueModel::TextString(s) => {
            assert(body =~= s);
        },
        ValueModel::ByteString(s) => {
            assert(body =~= s);
        },
        ValueModel::DateTime(x) => {
            assert(b.subrange(8, 16) =~= p.subrange(0, 8));
            lemma_be64_round_trip(x as u64);
            lemma_i64_round_trip(x);
        },
        ValueModel::Interval(x) => {
            assert(b.subrange(8, 12) =~= p.subrange(0, 4));
            assert(p.subrange(0, 4) =~= be32(x));
            lemma_be32_round_trip(x);
        },
        ValueModel::BigInteger(_) => {},
    }
}

} // verus!
