use vstd::prelude::*;
use vstd::slice::slice_subrange;
use vstd::string::StringSliceAdditionalSpecFns;

use crate::util::{
    be32, lemma_be32_zero, lemma_padded_len_fits, lemma_splice_adjacent, padded_len, read_be16,
    read_be32, read_be64, splice, str_from_utf8, write_be16, write_be32, write_be64, WriteVar,
};
use crate::wire::{
    child_encodings, child_errors, concat, declared_len, encode_error, encoding, find_path,
    first_error, frame_len, header, lemma_concat_take, lemma_encoding_len, lemma_first_error,
    lemma_first_with_tag, lemma_frame_fits, parse, parse_children, payload, type_code, TtlvModel,
    lemma_header_round_trip, payload_error, ValueModel, START_BYTE,
};

verus! {

/// The ways an operation on a node can fail.
#[derive(Debug, Clone, Copy, PartialEq, Eq, Structural)]
pub enum Error {
    /// An unknown type code was read, a big integer was to be encoded, or a
    /// declared length does not fit the 32-bit length field.
    UnsupportedType,
    /// A value is not of the kind asked for, or a path runs through a node
    /// that is not a structure.
    TypeMismatch,
    /// No child carries the tag that a path asks for.
    ChildNotFound,
    /// The first byte of a node is not the start byte.
    MissingStartByte,
    /// The buffer is too small to hold or to read a whole node.
    InsufficientBufferSize,
    /// A text payload is not valid UTF-8.
    CorruptUtf8,
}

/// An enumerable identifier that stands for a tag on the wire. The codec
/// itself only ever sees the 16-bit wire values, and tags are equal when
/// their wire values are. An implementation outside verified code supplies
/// `spec_wire` and `spec_from_wire` as ordinary methods that agree with
/// `to_u16` and `from_u16`.
pub trait Tag: Sized {
    /// The 16-bit wire value of this identifier.
    spec fn spec_wire(&self) -> u16;

    /// The identifier whose wire value is `n`, or `None` when `n` stands for
    /// none of them.
    spec fn spec_from_wire(n: u16) -> Option<Self>;

    fn from_u16(n: u16) -> (r: Option<Self>)
        ensures
            r == Self::spec_from_wire(n),
    ;

    fn to_u16(&self) -> (r: u16)
        ensures
            r == self.spec_wire(),
    ;
}

/// Raw wire values: every 16-bit value is a tag.
impl Tag for u16 {
    open spec fn spec_wire(&self) -> u16 {
        *self
    }

    open spec fn spec_from_wire(n: u16) -> Option<u16> {
        Some(n)
    }

    fn from_u16(n: u16) -> (r: Option<u16>) {
        Some(n)
    }

    fn to_u16(&self) -> (r: u16) {
        *self
    }
}

/// The contents of a sequence of nodes.
pub open spec fn node_views<'a>(s: Seq<Ttlv<'a>>) -> Seq<TtlvModel> {
    Seq::new(s.len(), |i: int| s[i]@)
}

/// The wire values of a sequence of identifiers.
pub open spec fn wire_tags<T: Tag>(tags: Seq<T>) -> Seq<u16> {
    tags.map_values(|t: T| t.spec_wire())
}

/// A native type that can be read out of one kind of value.
pub trait TryFromValue<'a>: Sized {
    /// The value is of the kind that this type stands for.
    spec fn spec_accepts(value: ValueModel) -> bool;

    /// `x` is the payload of `value`.
    spec fn spec_payload_of(value: ValueModel, x: Self) -> bool;

    fn try_from(value: &'a Value<'a>) -> (r: Option<Self>)
        ensures
            r is Some <==> Self::spec_accepts(value@),
            r matches Some(x) ==> Self::spec_payload_of(value@, x),
    ;
}

impl<'a> TryFromValue<'a> for i32 {
    open spec fn spec_accepts(value: ValueModel) -> bool {
        value is Integer
    }

    open spec fn spec_payload_of(value: ValueModel, x: i32) -> bool {
        value == ValueModel::Integer(x)
    }

    fn try_from(value: &'a Value<'a>) -> (r: Option<i32>) {
        if let Value::Integer(val) = value {
            Some(*val)
        } else {
            None
        }
    }
}

impl<'a> TryFromValue<'a> for i64 {
    open spec fn spec_accepts(value: ValueModel) -> bool {
        value is LongInteger
    }

    open spec fn spec_payload_of(value: ValueModel, x: i64) -> bool {
        value == ValueModel::LongInteger(x)
    }

    fn try_from(value: &'a Value<'a>) -> (r: Option<i64>) {
        if let Value::LongInteger(val) = value {
            Some(*val)
        } else {
            None
        }
    }
}

impl<'a> TryFromValue<'a> for u32 {
    open spec fn spec_accepts(value: ValueModel) -> bool {
        value is Enumeration
    }

    open spec fn spec_payload_of(value: ValueModel, x: u32) -> bool {
        value == ValueModel::Enumeration(x)
    }

    fn try_from(value: &'a Value<'a>) -> (r: Option<u32>) {
        if let Value::Enumeration(val) = value {
            Some(*val)
        } else {
            None
        }
    }
}

impl<'a> TryFromValue<'a> for bool {
    open spec fn spec_accepts(value: ValueModel) -> bool {
        value is Boolean
    }

    open spec fn spec_payload_of(value: ValueModel, x: bool) -> bool {
        value == ValueModel::Boolean(x)
    }

    fn try_from(value: &'a Value<'a>) -> (r: Option<bool>) {
        if let Value::Boolean(val) = value {
            Some(*val)
        } else {
            None
        }
    }
}

impl<'a> TryFromValue<'a> for &'a str {
    open spec fn spec_accepts(value: ValueModel) -> bool {
        value is TextString
    }

    open spec fn spec_payload_of(value: ValueModel, x: &'a str) -> bool {
        value == ValueModel::TextString(x.spec_bytes())
    }

    fn try_from(value: &'a Value<'a>) -> (r: Option<&'a str>) {
        if let Value::TextString(val) = value {
            Some(*val)
        } else {
            None
        }
    }
}

impl<'a> TryFromValue<'a> for &'a [u8] {
    open spec fn spec_accepts(value: ValueModel) -> bool {
        value is ByteString
    }

    open spec fn spec_payload_of(value: ValueModel, x: &'a [u8]) -> bool {
        value == ValueModel::ByteString(x@)
    }

    fn try_from(value: &'a Value<'a>) -> (r: Option<&'a [u8]>) {
        if let Value::ByteString(val) = value {
            Some(*val)
        } else {
            None
        }
    }
}

/// A node of the tree: a 16-bit tag and a value.
#[derive(Debug, PartialEq)]
pub struct Ttlv<'a> {
    tag: u16,
    value: Value<'a>,
}

/// The ten kinds of value. Text and byte payloads borrow from the buffer
/// they were decoded from.
#[derive(Debug, PartialEq)]
pub enum Value<'a> {
    /// Child nodes, in order; several may carry the same tag.
    Structure(Vec<Ttlv<'a>>),
    Integer(i32),
    LongInteger(i64),
    /// Sign-extended big-endian bytes; read but never written.
    BigInteger(&'a [u8]),
    Enumeration(u32),
    Boolean(bool),
    TextString(&'a str),
    ByteString(&'a [u8]),
    /// Seconds since the POSIX epoch.
    DateTime(i64),
    /// A duration in seconds.
    Interval(u32),
}

/// The contents of a sequence of nodes.
pub open spec fn nodes_model<'a>(v: Vec<Ttlv<'a>>) -> Seq<TtlvModel>
    decreases v,
{
    Seq::new(v.len() as nat, |i: int| if 0 <= i < v.len() { v[i].model() } else { arbitrary() })
}

impl<'a> Value<'a> {
    pub open spec fn model(self) -> ValueModel
        decreases self,
    {
        match self {
            Value::Structure(v) => ValueModel::Structure(nodes_model(v)),
            Value::Integer(x) => ValueModel::Integer(x),
            Value::LongInteger(x) => ValueModel::LongInteger(x),
            Value::BigInteger(b) => ValueModel::BigInteger(b@),
            Value::Enumeration(x) => ValueModel::Enumeration(x),
            Value::Boolean(x) => ValueModel::Boolean(x),
            Value::TextString(s) => ValueModel::TextString(s.spec_bytes()),
            Value::ByteString(b) => ValueModel::ByteString(b@),
            Value::DateTime(x) => ValueModel::DateTime(x),
            Value::Interval(x) => ValueModel::Interval(x),
        }
    }
}

impl<'a> Ttlv<'a> {
    pub closed spec fn model(self) -> TtlvModel
        decreases self,
    {
        TtlvModel { tag: self.tag, value: self.value.model() }
    }
}

impl<'a> View for Value<'a> {
    type V = ValueModel;

    open spec fn view(&self) -> ValueModel {
        self.model()
    }
}

impl<'a> View for Ttlv<'a> {
    type V = TtlvModel;

    open spec fn view(&self) -> TtlvModel {
        self.model()
    }
}

impl<'a> Ttlv<'a> {
    /// Encodes `children` one after another into `buf` from `p` on and
    /// returns the number of bytes written.
    fn encode_children(children: &Vec<Ttlv<'a>>, buf: &mut [u8], p: usize) -> (r: Result<
        usize,
        Error,
    >)
        requires
            p <= old(buf)@.len(),
        ensures
            final(buf)@.len() == old(buf)@.len(),
            match r {
                Ok(n) => {
                    &&& p + n <= old(buf)@.len()
                    &&& first_error(child_errors(nodes_model(*children), old(buf)@.len() - p)) is None
                    &&& n == concat(child_encodings(nodes_model(*children))).len()
                    &&& final(buf)@ == splice(
                        old(buf)@,
                        p as int,
                        concat(child_encodings(nodes_model(*children))),
                    )
                },
                Err(e) => first_error(child_errors(nodes_model(*children), old(buf)@.len() - p))
                    == Some(e),
            },
        decreases children, 2nat,
    {
        let ghost start = buf@;
        let ghost cs = nodes_model(*children);
        let ghost encs = child_encodings(cs);
        let ghost errs = child_errors(cs, start.len() - p);
        let total = buf.len();
        let mut cursor: usize = p;
        let mut i: usize = 0;
        let mut failed: Option<Error> = None;
        while i < children.len() && failed.is_none()
            invariant
                cs == nodes_model(*children),
                encs == child_encodings(cs),
                errs == child_errors(cs, start.len() - p),
                start.len() == total,
                p <= cursor <= start.len(),
                i <= children.len(),
                buf@.len() == start.len(),
                failed matches Some(e) ==> first_error(errs) == Some(e),
                failed is None ==> {
                    &&& cursor - p == concat(encs.take(i as int)).len()
                    &&& buf@ == splice(start, p as int, concat(encs.take(i as int)))
                    &&& forall|k: int| 0 <= k < i ==> errs[k] is None
                },
            decreases 2 * (children.len() - i) + if failed is None { 1int } else { 0int },
        {
            let c = &children[i];
            proof {
                lemma_concat_take(encs, i as int);
                assert(decreases_to!(*children => children@[i as int]));
            }
            match c.encode_at(buf, cursor) {
                Ok(n) => {
                    proof {
                        lemma_splice_adjacent(
                            start,
                            p as int,
                            concat(encs.take(i as int)),
                            encs[i as int],
                        );
                    }
                    cursor = cursor + n;
                    i = i + 1;
                },
                Err(e) => {
                    proof {
                        lemma_first_error(errs, i as int);
                    }
                    failed = Some(e);
                },
            }
        }
        if let Some(e) = failed {
            return Err(e);
        }
        proof {
            assert(encs.take(i as int) =~= encs);
            lemma_first_error(errs, i as int);
        }
        Ok(cursor - p)
    }

    /// Writes the payload of the node's value at `p`, returning the type code
    /// and the declared length for its header.
    fn encode_payload(&self, buf: &mut [u8], p: usize) -> (r: Result<(u8, usize), Error>)
        requires
            8 <= p,
            p + 8 <= old(buf)@.len(),
        ensures
            final(buf)@.len() == old(buf)@.len(),
            match r {
                Ok((code, len)) => {
                    &&& payload_error(self@, old(buf)@.len() - p + 8) is None
                    &&& code == type_code(self@.value)
                    &&& len == declared_len(self@.value)
                    &&& p + payload(self@.value).len() <= old(buf)@.len()
                    &&& final(buf)@ == splice(old(buf)@, p as int, payload(self@.value))
                },
                Err(e) => payload_error(self@, old(buf)@.len() - p + 8) == Some(e),
            },
        decreases self, 0nat,
    {
        let ghost start = buf@;
        let total = buf.len();
        proof {
            lemma_be32_zero();
        }
        match &self.value {
            Value::Structure(children) => {
                proof {
                    assert(decreases_to!(self => children));
                }
                match Self::encode_children(children, buf, p) {
                    Ok(n) => Ok((1, n)),
                    Err(e) => Err(e),
                }
            },
            Value::Integer(x) => {
                write_be32(buf, p, *x as u32);
                write_be32(buf, p + 4, 0);
                proof {
                    lemma_splice_adjacent(start, p as int, be32(*x as u32), be32(0));
                }
                Ok((2, 4))
            },
            Value::LongInteger(x) => {
                write_be64(buf, p, *x as u64);
                Ok((3, 8))
            },
            Value::BigInteger(_) => Err(Error::UnsupportedType),
            Value::Enumeration(x) => {
                write_be32(buf, p, *x);
                write_be32(buf, p + 4, 0);
                proof {
                    lemma_splice_adjacent(start, p as int, be32(*x), be32(0));
                }
                Ok((5, 4))
            },
            Value::Boolean(x) => {
                write_be64(buf, p, if *x { 1 } else { 0 });
                Ok((6, 8))
            },
            Value::TextString(s) => {
                match buf.write_var(s.as_bytes(), p) {
                    Ok(()) => Ok((7, s.len())),
                    Err(e) => Err(e),
                }
            },
            Value::ByteString(b) => {
                match buf.write_var(b, p) {
                    Ok(()) => Ok((8, b.len())),
                    Err(e) => Err(e),
                }
            },
            Value::DateTime(x) => {
                write_be64(buf, p, *x as u64);
                Ok((9, 8))
            },
            Value::Interval(x) => {
                write_be32(buf, p, *x);
                write_be32(buf, p + 4, 0);
                proof {
                    lemma_splice_adjacent(start, p as int, be32(*x), be32(0));
                }
                Ok((10, 4))
            },
        }
    }

    /// Encodes the node into `buf` from `off` on and returns the number of
    /// bytes written.
    fn encode_at(&self, buf: &mut [u8], off: usize) -> (r: Result<usize, Error>)
        requires
            off <= old(buf)@.len(),
        ensures
            final(buf)@.len() == old(buf)@.len(),
            match r {
                Ok(n) => {
                    &&& off + n <= old(buf)@.len()
                    &&& encode_error(self@, old(buf)@.len() - off) is None
                    &&& n == encoding(self@).len()
                    &&& final(buf)@ == splice(old(buf)@, off as int, encoding(self@))
                },
                Err(e) => encode_error(self@, old(buf)@.len() - off) == Some(e),
            },
        decreases self, 1nat,
    {
        let ghost start = buf@;
        let ghost m = self@;
        let avail = buf.len() - off;
        if avail < 16 {
            return Err(Error::InsufficientBufferSize);
        }
        let (code, len) = match self.encode_payload(buf, off + 8) {
            Ok(cl) => cl,
            Err(e) => return Err(e),
        };
        if len as u64 > 0xFFFF_FFFFu64 {
            return Err(Error::UnsupportedType);
        }
        proof {
            lemma_encoding_len(m);
            lemma_padded_len_fits(len as int, 0);
        }
        let ghost mid = buf@;
        buf[off] = START_BYTE;
        write_be16(buf, off + 1, self.tag);
        buf[off + 3] = code;
        write_be32(buf, off + 4, len as u32);
        proof {
            assert(buf@ =~= splice(mid, off as int, header(m.tag, code, len as int)));
            lemma_splice_adjacent(
                start,
                off as int,
                header(m.tag, code, len as int),
                payload(m.value),
            );
        }
        Ok(8 + padded_len(len))
    }
}

impl<'a> Ttlv<'a> {
    /// A node with the given wire tag and value.
    pub fn with_wire_tag(tag: u16, value: Value<'a>) -> (r: Self)
        ensures
            r@ == (TtlvModel { tag, value: value@ }),
    {
        Ttlv { tag, value }
    }

    /// A node with the given tag and value.
    pub fn new<T: Tag>(tag: T, value: Value<'a>) -> (r: Self)
        ensures
            r@ == (TtlvModel { tag: tag.spec_wire(), value: value@ }),
    {
        Self::with_wire_tag(tag.to_u16(), value)
    }

    /// The node's 16-bit wire tag.
    pub fn wire_tag(&self) -> (r: u16)
        ensures
            r == self@.tag,
    {
        self.tag
    }

    /// The node's tag as an identifier of `T`, or `None` when its wire value
    /// stands for none of them.
    pub fn tag<T: Tag>(&self) -> (r: Option<T>)
        ensures
            r == T::spec_from_wire(self@.tag),
    {
        T::from_u16(self.wire_tag())
    }

    /// The node's payload as a `T`; fails with a type mismatch when the
    /// value is of another kind.
    pub fn value<T: TryFromValue<'a>>(&'a self) -> (r: Result<T, Error>)
        ensures
            r is Ok <==> T::spec_accepts(self@.value),
            r matches Ok(x) ==> T::spec_payload_of(self@.value, x),
            r is Err ==> r == Err::<T, Error>(Error::TypeMismatch),
    {
        match T::try_from(&self.value) {
            Some(x) => Ok(x),
            None => Err(Error::TypeMismatch),
        }
    }

    /// The children of a structure, in order; fails with a type mismatch on
    /// any other kind of value.
    pub fn child_iter(&self) -> (r: Result<&[Ttlv<'a>], Error>)
        ensures
            r is Ok <==> self@.value is Structure,
            r matches Ok(s) ==> node_views(s@) == self@.value->Structure_0,
            r is Err ==> r == Err::<&[Ttlv<'a>], Error>(Error::TypeMismatch),
    {
        if let Value::Structure(val) = &self.value {
            let s = val.as_slice();
            assert(node_views(s@) =~= nodes_model(*val));
            Ok(s)
        } else {
            Err(Error::TypeMismatch)
        }
    }

    /// Follows the wire tags `tags` down the tree: at each step, the first child that
    /// carries the next tag. Fails with a type mismatch when a node on the
    /// way is not a structure, and with child-not-found when no child carries
    /// the tag.
    pub fn path_wire(&self, tags: &[u16]) -> (r: Result<&Ttlv<'a>, Error>)
        requires
            tags@.len() > 0,
        ensures
            match r {
                Ok(n) => find_path(self@, tags@) == Ok::<
                    TtlvModel,
                    Error,
                >(n@),
                Err(e) => find_path(self@, tags@) == Err::<
                    TtlvModel,
                    Error,
                >(e),
            },
        decreases tags@.len(),
    {
        let ghost wire = tags@;
        let children = self.child_iter()?;
        let want = tags[0];
        let ghost cs = node_views(children@);
        let mut i: usize = 0;
        while i < children.len() && children[i].tag != want
            invariant
                i <= children@.len(),
                cs == node_views(children@),
                forall|k: int| 0 <= k < i ==> cs[k].tag != want,
            decreases children.len() - i,
        {
            i = i + 1;
        }
        proof {
            lemma_first_with_tag(cs, want, i as int);
        }
        if i == children.len() {
            return Err(Error::ChildNotFound);
        }
        let c = &children[i];
        assert(c@ == cs[i as int]);
        assert(wire[0] == want);
        assert(self@.value->Structure_0 == cs);
        if tags.len() == 1 {
            proof {
                assert(wire.drop_first().len() == 0);
                assert(find_path(c@, wire.drop_first()) == Ok::<TtlvModel, Error>(c@));
                assert(find_path(self@, wire) == find_path(c@, wire.drop_first()));
            }
            Ok(c)
        } else {
            let rest = slice_subrange(tags, 1, tags.len());
            proof {
                assert(rest@ =~= wire.drop_first());
                assert(find_path(self@, wire) == find_path(c@, wire.drop_first()));
            }
            c.path_wire(rest)
        }
    }

    /// Follows `tags` down the tree: at each step, the first child whose
    /// wire tag is that of the next identifier. Fails with a type mismatch
    /// when a node on the way is not a structure, and with child-not-found
    /// when no child carries the tag.
    pub fn path<T: Tag>(&self, tags: &[T]) -> (r: Result<&Ttlv<'a>, Error>)
        requires
            tags@.len() > 0,
        ensures
            match r {
                Ok(n) => find_path(self@, wire_tags(tags@)) == Ok::<TtlvModel, Error>(n@),
                Err(e) => find_path(self@, wire_tags(tags@)) == Err::<TtlvModel, Error>(e),
            },
    {
        let mut wire: Vec<u16> = Vec::new();
        let mut i: usize = 0;
        while i < tags.len()
            invariant
                i <= tags@.len(),
                wire@ == wire_tags(tags@.take(i as int)),
            decreases tags.len() - i,
        {
            wire.push(tags[i].to_u16());
            proof {
                assert(wire_tags(tags@.take(i + 1)) =~= wire_tags(tags@.take(i as int)).push(
                    tags@[i as int].spec_wire(),
                ));
            }
            i = i + 1;
        }
        proof {
            assert(tags@.take(i as int) =~= tags@);
        }
        self.path_wire(wire.as_slice())
    }

    /// Encodes the node at the start of `buf` and returns the number of
    /// bytes written: the node's encoding, which is a multiple of eight bytes
    /// long. Fails when a node or payload does not fit or when the tree holds
    /// a big integer, which cannot be encoded, or a payload longer than the
    /// 32-bit length field can declare.
    pub fn encode(&self, buf: &mut [u8]) -> (r: Result<usize, Error>)
        ensures
            final(buf)@.len() == old(buf)@.len(),
            match r {
                Ok(n) => {
                    &&& encode_error(self@, old(buf)@.len() as int) is None
                    &&& n == encoding(self@).len()
                    &&& n % 8 == 0
                    &&& n == frame_len(final(buf)@)
                    &&& final(buf)@ == splice(old(buf)@, 0, encoding(self@))
                },
                Err(e) => encode_error(self@, old(buf)@.len() as int) == Some(e),
            },
    {
        let ghost start = buf@;
        proof {
            lemma_encoding_len(self@);
        }
        let r = self.encode_at(buf, 0);
        proof {
            if r is Ok {
                let e = encoding(self@);
                lemma_header_round_trip(self@, start.subrange(e.len() as int, start.len() as int));
                assert(buf@ =~= e + start.subrange(e.len() as int, start.len() as int));
            }
        }
        r
    }

    /// Reads the children of a structure from `buf[8..end]`, stopping at the
    /// first place where no node can be read.
    fn decode_children(buf: &'a [u8], end: usize) -> (r: Vec<Ttlv<'a>>)
        requires
            8 <= end <= buf@.len(),
        ensures
            nodes_model(r) == parse_children(buf@.subrange(8, end as int)),
        decreases buf@.len(), 0nat,
    {
        let mut cursor: usize = 8;
        let mut children: Vec<Ttlv<'a>> = Vec::new();
        let mut done = false;
        while !done
            invariant
                8 <= end <= buf@.len(),
                8 <= cursor <= end,
                done ==> parse_children(buf@.subrange(cursor as int, end as int)) == Seq::<TtlvModel>::empty(),
                nodes_model(children) + parse_children(buf@.subrange(cursor as int, end as int))
                    == parse_children(buf@.subrange(8, end as int)),
            decreases 2 * (end - cursor) + if done { 0int } else { 1int },
        {
            let region = slice_subrange(buf, cursor, end);
            let ghost r = region@;
            match Ttlv::decode(region) {
                Ok((c, n)) => {
                    proof {
                        lemma_frame_fits(r);
                        assert(r.subrange(n as int, r.len() as int) =~= buf@.subrange(
                            cursor + n,
                            end as int,
                        ));
                        assert(nodes_model(children).push(c@) =~= {
                            let v = children@.push(c);
                            Seq::new(v.len(), |i: int| v[i]@)
                        });
                    }
                    children.push(c);
                    proof {
                        assert(nodes_model(children) =~= nodes_model(children).drop_last().push(c@));
                    }
                    cursor = cursor + n;
                },
                Err(_) => {
                    done = true;
                },
            }
        }
        proof {
            assert(nodes_model(children) + Seq::<TtlvModel>::empty() =~= nodes_model(children));
        }
        children
    }

    /// Decodes the node at the start of `buf` and returns it with the number
    /// of bytes it occupies. Text and byte payloads borrow from `buf`. The
    /// children of a structure are read up to the first one that cannot be
    /// read, so a malformed child ends the list rather than failing the call.
    pub fn decode(buf: &'a [u8]) -> (r: Result<(Ttlv<'a>, usize), Error>)
        ensures
            match r {
                Ok((t, n)) => parse(buf@) == Ok::<TtlvModel, Error>(t@) && n == frame_len(buf@),
                Err(e) => parse(buf@) == Err::<TtlvModel, Error>(e),
            },
        decreases buf@.len(), 1nat,
    {
        if buf.len() < 8 {
            return Err(Error::InsufficientBufferSize);
        }
        if buf[0] != START_BYTE {
            return Err(Error::MissingStartByte);
        }
        let tag = read_be16(buf, 1);
        let code = buf[3];
        if code < 1 || code > 10 {
            return Err(Error::UnsupportedType);
        }
        let len = read_be32(buf, 4) as u64;
        let padded = (len + 7) / 8 * 8;
        let width: u64 = if code == 2 || code == 5 || code == 10 {
            4
        } else if code == 3 || code == 6 || code == 9 {
            8
        } else {
            0
        };
        if (buf.len() as u64) < 8 + padded || (buf.len() as u64) < 8 + width {
            return Err(Error::InsufficientBufferSize);
        }
        proof {
            lemma_padded_len_fits(len as int, 0);
        }
        let end = (8 + len) as usize;
        let value = if code == 1 {
            Value::Structure(Self::decode_children(buf, end))
        } else if code == 2 {
            Value::Integer(read_be32(buf, 8) as i32)
        } else if code == 3 {
            Value::LongInteger(read_be64(buf, 8) as i64)
        } else if code == 4 {
            Value::BigInteger(slice_subrange(buf, 8, end))
        } else if code == 5 {
            Value::Enumeration(read_be32(buf, 8))
        } else if code == 6 {
            Value::Boolean(read_be64(buf, 8) != 0)
        } else if code == 7 {
            match str_from_utf8(slice_subrange(buf, 8, end)) {
                Ok(s) => Value::TextString(s),
                Err(e) => return Err(Error::from(e)),
            }
        } else if code == 8 {
            Value::ByteString(slice_subrange(buf, 8, end))
        } else if code == 9 {
            Value::DateTime(read_be64(buf, 8) as i64)
        } else {
            Value::Interval(read_be32(buf, 8))
        };
        let t = Ttlv { tag, value };
        proof {
            assert(t@ == parse(buf@)->Ok_0);
        }
        Ok((t, (8 + padded) as usize))
    }
}

} // verus!
