//! The binary entry: an eight-byte length, a four-byte checksum, a one-byte
//! tag and a payload, all little-endian.

use crate::checksum::{checksum, crc32};
use crate::error::DecodeError;
use crate::value::{BorrowedValue, OwnedValue, ValueView};
use vstd::bytes::*;
use vstd::prelude::*;
use vstd::slice::slice_subrange;
use vstd::utf8::*;

verus! {

/// Size in bytes of the length field that opens every entry.
pub const LEN_BYTES: usize = 8;

/// Size in bytes of the checksum field.
pub const CHECKSUM_BYTES: usize = 4;

/// Size in bytes of the type tag.
pub const TAG_BYTES: usize = 1;

/// Size in bytes of the fixed header: length, checksum and tag.
pub const HEADER_SIZE: usize = LEN_BYTES + CHECKSUM_BYTES + TAG_BYTES;

/// The kind of payload that an entry carries.
#[derive(Copy, Clone, Debug, PartialEq, Eq)]
pub enum TypeTag {
    Integer,
    Text,
    Bool,
    Blob,
}

impl TypeTag {
    /// The byte that stands for this tag in an entry.
    pub open spec fn spec_code(self) -> u8 {
        match self {
            TypeTag::Integer => 0,
            TypeTag::Text => 1,
            TypeTag::Bool => 2,
            TypeTag::Blob => 3,
        }
    }

    /// The tag that a byte stands for, if any.
    pub open spec fn spec_from_u8(b: u8) -> Option<TypeTag> {
        if b == 0 {
            Some(TypeTag::Integer)
        } else if b == 1 {
            Some(TypeTag::Text)
        } else if b == 2 {
            Some(TypeTag::Bool)
        } else if b == 3 {
            Some(TypeTag::Blob)
        } else {
            None
        }
    }

    /// The byte that stands for this tag in an entry.
    #[verifier::when_used_as_spec(spec_code)]
    pub fn code(self) -> (b: u8)
        ensures
            b == self.spec_code(),
    {
        match self {
            TypeTag::Integer => 0,
            TypeTag::Text => 1,
            TypeTag::Bool => 2,
            TypeTag::Blob => 3,
        }
    }

    /// The tag that a byte stands for, if any.
    #[verifier::when_used_as_spec(spec_from_u8)]
    pub fn from_u8(b: u8) -> (tag: Option<TypeTag>)
        ensures
            tag == TypeTag::spec_from_u8(b),
    {
        match b {
            0 => Some(TypeTag::Integer),
            1 => Some(TypeTag::Text),
            2 => Some(TypeTag::Bool),
            3 => Some(TypeTag::Blob),
            _ => None,
        }
    }
}

/// The three scalar fields that open an entry.
#[derive(Copy, Clone, Debug, PartialEq, Eq)]
pub struct RawHeader {
    pub length: u64,
    pub checksum: u32,
    pub tag: u8,
}

/// The little-endian `u64` that `data` holds at `at`.
pub open spec fn le_u64_at(data: Seq<u8>, at: int) -> u64 {
    spec_u64_from_le_bytes(data.subrange(at, at + 8))
}

/// The little-endian `u32` that `data` holds at `at`.
pub open spec fn le_u32_at(data: Seq<u8>, at: int) -> u32 {
    spec_u32_from_le_bytes(data.subrange(at, at + 4))
}

/// The thirteen bytes of a header.
pub open spec fn header_bytes(h: RawHeader) -> Seq<u8> {
    spec_u64_to_le_bytes(h.length) + spec_u32_to_le_bytes(h.checksum) + seq![h.tag]
}

/// The header that the first thirteen bytes of `data` spell.
pub open spec fn header_of(data: Seq<u8>) -> RawHeader {
    RawHeader { length: le_u64_at(data, 0), checksum: le_u32_at(data, 8), tag: data[12] }
}

/// Appends `bytes` to `out`.
fn append_bytes(out: &mut Vec<u8>, bytes: &[u8])
    ensures
        final(out)@ == old(out)@ + bytes@,
{
    out.extend_from_slice(bytes);
    assert(out@ =~= old(out)@ + bytes@);
}

/// A header is thirteen bytes long, and reading it back gives its fields,
/// whatever follows it.
pub proof fn lemma_header_round_trip(h: RawHeader, rest: Seq<u8>)
    ensures
        header_bytes(h).len() == HEADER_SIZE,
        header_of(header_bytes(h) + rest) == h,
{
    lemma_auto_spec_u64_to_from_le_bytes();
    lemma_auto_spec_u32_to_from_le_bytes();
    let data = header_bytes(h) + rest;
    assert(data.subrange(0, 8) =~= spec_u64_to_le_bytes(h.length));
    assert(data.subrange(8, 12) =~= spec_u32_to_le_bytes(h.checksum));
}

/// Writes the header as thirteen bytes, field by field.
pub fn serialize_header(header: &RawHeader, out: &mut Vec<u8>)
    ensures
        final(out)@ == old(out)@ + header_bytes(*header),
{
    let length = u64_to_le_bytes(header.length);
    let sum = u32_to_le_bytes(header.checksum);
    append_bytes(out, length.as_slice());
    append_bytes(out, sum.as_slice());
    out.push(header.tag);
    assert(out@ =~= old(out)@ + header_bytes(*header));
}

/// Reads the header off the front of `data`.
pub fn deserialize_header(data: &[u8]) -> (r: Result<RawHeader, DecodeError>)
    ensures
        data@.len() < HEADER_SIZE ==> r == Err::<RawHeader, DecodeError>(
            DecodeError::SliceTooShortForHeader,
        ),
        data@.len() >= HEADER_SIZE ==> r == Ok::<RawHeader, DecodeError>(header_of(data@)),
{
    if data.len() < HEADER_SIZE {
        return Err(DecodeError::SliceTooShortForHeader);
    }
    let length = u64_from_le_bytes(slice_subrange(data, 0, 8));
    let sum = u32_from_le_bytes(slice_subrange(data, 8, 12));
    let tag = data[12];
    Ok(RawHeader { length, checksum: sum, tag })
}

/// The bits of `x` read as an unsigned number.
pub open spec fn bits_of(x: i64) -> u64 {
    x as u64
}

/// The signed number whose bits are those of `u`.
pub open spec fn signed_of(u: u64) -> i64 {
    u as i64
}

/// The tag of a value.
pub open spec fn tag_of(v: ValueView) -> TypeTag {
    match v {
        ValueView::Integer(_) => TypeTag::Integer,
        ValueView::Bool(_) => TypeTag::Bool,
        ValueView::Text(_) => TypeTag::Text,
        ValueView::Blob(_) => TypeTag::Blob,
    }
}

/// The payload that stands for a value: eight bytes for an integer, one for
/// a boolean, an eight-byte length and the bytes for a text or a byte
/// sequence.
pub open spec fn payload_bytes(v: ValueView) -> Seq<u8> {
    match v {
        ValueView::Integer(x) => spec_u64_to_le_bytes(bits_of(x)),
        ValueView::Bool(b) => seq![if b { 1u8 } else { 0u8 }],
        ValueView::Text(s) => spec_u64_to_le_bytes(encode_utf8(s).len() as u64) + encode_utf8(s),
        ValueView::Blob(b) => spec_u64_to_le_bytes(b.len() as u64) + b,
    }
}

/// The entry that carries a payload under a tag.
pub open spec fn frame(tag: u8, payload: Seq<u8>) -> Seq<u8> {
    header_bytes(
        RawHeader {
            length: (CHECKSUM_BYTES + TAG_BYTES + payload.len()) as u64,
            checksum: crc32(payload),
            tag,
        },
    ) + payload
}

/// The entry that stands for a value.
pub open spec fn entry_bytes(v: ValueView) -> Seq<u8> {
    frame(tag_of(v).spec_code(), payload_bytes(v))
}

/// Whether the lengths that the entry of `v` records fit the eight bytes
/// they are written in. Every value held in memory does.
pub open spec fn encodable(v: ValueView) -> bool {
    CHECKSUM_BYTES + TAG_BYTES + payload_bytes(v).len() <= u64::MAX
}

/// The value that a payload spells under a tag, or what is wrong with it.
pub open spec fn decode_payload(tag: u8, payload: Seq<u8>) -> Result<ValueView, DecodeError> {
    match TypeTag::spec_from_u8(tag) {
        None => Err(DecodeError::UnknownTypeTag(tag)),
        Some(TypeTag::Integer) => if payload.len() < 8 {
            Err(DecodeError::MissingIntegerPayload)
        } else {
            Ok(ValueView::Integer(signed_of(le_u64_at(payload, 0))))
        },
        Some(TypeTag::Bool) => if payload.len() < 1 {
            Err(DecodeError::MissingBoolPayload)
        } else {
            Ok(ValueView::Bool(payload[0] != 0))
        },
        Some(TypeTag::Text) => if payload.len() < 8 {
            Err(DecodeError::MissingTextLength)
        } else if payload.len() < 8 + le_u64_at(payload, 0) {
            Err(DecodeError::MissingTextPayload)
        } else {
            let text = payload.subrange(8, 8 + le_u64_at(payload, 0));
            if valid_utf8(text) {
                Ok(ValueView::Text(decode_utf8(text)))
            } else {
                Err(DecodeError::InvalidUtf8)
            }
        },
        Some(TypeTag::Blob) => if payload.len() < 8 {
            Err(DecodeError::MissingBlobLength)
        } else if payload.len() < 8 + le_u64_at(payload, 0) {
            Err(DecodeError::MissingBlobPayload)
        } else {
            Ok(ValueView::Blob(payload.subrange(8, 8 + le_u64_at(payload, 0))))
        },
    }
}

/// The number of bytes that the entry at the front of `data` takes, going
/// by its length field.
pub open spec fn entry_span(data: Seq<u8>) -> int {
    LEN_BYTES + le_u64_at(data, 0)
}

/// The value that the entry at the front of `data` holds, or the first
/// thing that is wrong with it. The checks come in this order: the header
/// is there; the bytes that the length field counts are there; the length
/// covers checksum and tag; the checksum is that of the payload; the tag is
/// known; the payload is long enough for its type; a text is UTF-8.
pub open spec fn decode(data: Seq<u8>) -> Result<ValueView, DecodeError> {
    if data.len() < HEADER_SIZE {
        Err(DecodeError::SliceTooShortForHeader)
    } else if data.len() < entry_span(data) {
        Err(DecodeError::EntryTruncated)
    } else if entry_span(data) < HEADER_SIZE {
        Err(DecodeError::PayloadTruncated)
    } else {
        let header = header_of(data);
        let payload = data.subrange(HEADER_SIZE as int, entry_span(data));
        let computed = crc32(payload);
        if computed != header.checksum {
            Err(DecodeError::ChecksumMismatch { computed, stored: header.checksum })
        } else {
            decode_payload(header.tag, payload)
        }
    }
}

/// What stands at the front of `data`: nothing whole yet, or a value and
/// the number of bytes it took, or an entry that is whole and wrong.
pub open spec fn parse(data: Seq<u8>) -> Result<Option<(ValueView, int)>, DecodeError> {
    if data.len() < HEADER_SIZE || data.len() < entry_span(data) {
        Ok(None)
    } else {
        match decode(data.take(entry_span(data))) {
            Ok(v) => Ok(Some((v, entry_span(data)))),
            Err(e) => Err(e),
        }
    }
}

/// Reads text out of bytes with `core::str::from_utf8`.
///
/// Trusted: the call succeeds exactly on valid UTF-8, and the text it
/// gives is made of the very bytes it was handed.
#[verifier::external_body]
fn text_of_bytes<'a>(bytes: &'a [u8]) -> (text: Option<&'a str>)
    ensures
        text is Some <==> valid_utf8(bytes@),
        text matches Some(s) ==> encode_utf8(s@) == bytes@,
{
    core::str::from_utf8(bytes).ok()
}

/// Appends the entry of `value` to `out`.
pub fn serialize_value(value: &OwnedValue, out: &mut Vec<u8>)
    ensures
        final(out)@ == old(out)@ + entry_bytes(value@),
        encodable(value@),
{
    let tag = match value {
        OwnedValue::Integer(_) => TypeTag::Integer,
        OwnedValue::Bool(_) => TypeTag::Bool,
        OwnedValue::Text(_) => TypeTag::Text,
        OwnedValue::Blob(_) => TypeTag::Blob,
    };
    // Checksum and tag go first, the checksum as zeros until it is known.
    let mut body: Vec<u8> = Vec::new();
    body.push(0);
    body.push(0);
    body.push(0);
    body.push(0);
    body.push(tag.code());
    match value {
        OwnedValue::Integer(x) => {
            let bytes = u64_to_le_bytes(*x as u64);
            append_bytes(&mut body, bytes.as_slice());
        },
        OwnedValue::Bool(b) => {
            body.push(if *b { 1u8 } else { 0u8 });
        },
        OwnedValue::Text(s) => {
            let bytes = s.as_str().as_bytes();
            let len_bytes = u64_to_le_bytes(bytes.len() as u64);
            append_bytes(&mut body, len_bytes.as_slice());
            append_bytes(&mut body, bytes);
        },
        OwnedValue::Blob(v) => {
            let len_bytes = u64_to_le_bytes(v.len() as u64);
            append_bytes(&mut body, len_bytes.as_slice());
            append_bytes(&mut body, v.as_slice());
        },
    }
    let ghost payload = payload_bytes(value@);
    assert(body@.subrange(5, body@.len() as int) =~= payload);
    let sum = checksum(slice_subrange(body.as_slice(), 5, body.len()));
    let sum_bytes = u32_to_le_bytes(sum);
    proof {
        lemma_auto_spec_u32_to_from_le_bytes();
    }
    body.set(0, sum_bytes[0]);
    body.set(1, sum_bytes[1]);
    body.set(2, sum_bytes[2]);
    body.set(3, sum_bytes[3]);
    assert(body@ =~= spec_u32_to_le_bytes(sum) + seq![tag.spec_code()] + payload);
    let length = u64_to_le_bytes(body.len() as u64);
    append_bytes(out, length.as_slice());
    append_bytes(out, body.as_slice());
    assert(out@ =~= old(out)@ + entry_bytes(value@));
}

/// Decodes the entry at the front of `data`. The value points into `data`;
/// nothing of a text or a byte sequence is copied. What may follow the
/// entry is not looked at.
pub fn deserialize_borrowed<'a>(data: &'a [u8]) -> (r: Result<BorrowedValue<'a>, DecodeError>)
    ensures
        match r {
            Ok(v) => decode(data@) == Ok::<ValueView, DecodeError>(v@),
            Err(e) => decode(data@) == Err::<ValueView, DecodeError>(e),
        },
{
    let header = match deserialize_header(data) {
        Ok(h) => h,
        Err(e) => {
            return Err(e);
        },
    };
    if header.length > (data.len() - LEN_BYTES) as u64 {
        return Err(DecodeError::EntryTruncated);
    }
    let total_len = header.length as usize;
    if total_len < CHECKSUM_BYTES + TAG_BYTES {
        return Err(DecodeError::PayloadTruncated);
    }
    let payload = slice_subrange(data, HEADER_SIZE, LEN_BYTES + total_len);
    let computed = checksum(payload);
    if computed != header.checksum {
        return Err(DecodeError::ChecksumMismatch { computed, stored: header.checksum });
    }
    let tag = match TypeTag::from_u8(header.tag) {
        Some(t) => t,
        None => {
            return Err(DecodeError::UnknownTypeTag(header.tag));
        },
    };
    match tag {
        TypeTag::Integer => {
            if payload.len() < 8 {
                return Err(DecodeError::MissingIntegerPayload);
            }
            let bits = u64_from_le_bytes(slice_subrange(payload, 0, 8));
            Ok(BorrowedValue::Integer(bits as i64))
        },
        TypeTag::Bool => {
            if payload.len() < 1 {
                return Err(DecodeError::MissingBoolPayload);
            }
            Ok(BorrowedValue::Bool(payload[0] != 0))
        },
        TypeTag::Text => {
            if payload.len() < 8 {
                return Err(DecodeError::MissingTextLength);
            }
            let text_len = u64_from_le_bytes(slice_subrange(payload, 0, 8));
            if text_len > (payload.len() - 8) as u64 {
                return Err(DecodeError::MissingTextPayload);
            }
            let text = slice_subrange(payload, 8, 8 + text_len as usize);
            match text_of_bytes(text) {
                Some(s) => {
                    proof {
                        encode_utf8_decode_utf8(s@);
                    }
                    Ok(BorrowedValue::Text(s))
                },
                None => Err(DecodeError::InvalidUtf8),
            }
        },
        TypeTag::Blob => {
            if payload.len() < 8 {
                return Err(DecodeError::MissingBlobLength);
            }
            let blob_len = u64_from_le_bytes(slice_subrange(payload, 0, 8));
            if blob_len > (payload.len() - 8) as u64 {
                return Err(DecodeError::MissingBlobPayload);
            }
            Ok(BorrowedValue::Blob(slice_subrange(payload, 8, 8 + blob_len as usize)))
        },
    }
}

/// Takes one entry off the front of `data`, if a whole one is there, and
/// says how many bytes it took.
pub fn parse_entry<'a>(data: &'a [u8]) -> (r: Result<
    Option<(BorrowedValue<'a>, usize)>,
    DecodeError,
>)
    ensures
        match r {
            Ok(Some((v, used))) => parse(data@) == Ok::<Option<(ValueView, int)>, DecodeError>(
                Some((v@, used as int)),
            ),
            Ok(None) => parse(data@) == Ok::<Option<(ValueView, int)>, DecodeError>(None),
            Err(e) => parse(data@) == Err::<Option<(ValueView, int)>, DecodeError>(e),
        },
{
    let header = match deserialize_header(data) {
        Ok(h) => h,
        Err(_) => {
            return Ok(None);
        },
    };
    if header.length > (data.len() - LEN_BYTES) as u64 {
        return Ok(None);
    }
    let used = LEN_BYTES + header.length as usize;
    let entry = slice_subrange(data, 0, used);
    assert(entry@ =~= data@.take(used as int));
    match deserialize_borrowed(entry) {
        Ok(v) => Ok(Some((v, used))),
        Err(e) => Err(e),
    }
}

/// The payload of a value decodes to the value under the value's tag.
pub proof fn lemma_decode_payload(v: ValueView)
    requires
        encodable(v),
    ensures
        decode_payload(tag_of(v).spec_code(), payload_bytes(v)) == Ok::<ValueView, DecodeError>(v),
{
    lemma_auto_spec_u64_to_from_le_bytes();
    let payload = payload_bytes(v);
    match v {
        ValueView::Integer(x) => {
            assert(payload.subrange(0, 8) =~= payload);
            assert((x as u64) as i64 == x) by (bit_vector);
        },
        ValueView::Bool(b) => {},
        ValueView::Text(s) => {
            let text = encode_utf8(s);
            encode_utf8_valid_utf8(s);
            encode_utf8_decode_utf8(s);
            assert(payload.subrange(0, 8) =~= spec_u64_to_le_bytes(text.len() as u64));
            assert(payload.subrange(8, 8 + text.len() as int) =~= text);
        },
        ValueView::Blob(b) => {
            assert(payload.subrange(0, 8) =~= spec_u64_to_le_bytes(b.len() as u64));
            assert(payload.subrange(8, 8 + b.len() as int) =~= b);
        },
    }
}

/// Decoding reads the entry at the front of its input and nothing behind
/// it: the entry of a value decodes to that value whatever follows, and
/// takes as many bytes as the entry has.
pub proof fn lemma_decode_entry(v: ValueView, rest: Seq<u8>)
    requires
        encodable(v),
    ensures
        entry_bytes(v).len() == HEADER_SIZE + payload_bytes(v).len(),
        entry_span(entry_bytes(v) + rest) == entry_bytes(v).len(),
        decode(entry_bytes(v) + rest) == Ok::<ValueView, DecodeError>(v),
        parse(entry_bytes(v) + rest) == Ok::<Option<(ValueView, int)>, DecodeError>(
            Some((v, entry_bytes(v).len() as int)),
        ),
{
    let payload = payload_bytes(v);
    let header = RawHeader {
        length: (CHECKSUM_BYTES + TAG_BYTES + payload.len()) as u64,
        checksum: crc32(payload),
        tag: tag_of(v).spec_code(),
    };
    let entry = entry_bytes(v);
    let data = entry + rest;
    lemma_header_round_trip(header, payload + rest);
    lemma_header_round_trip(header, payload);
    assert(data =~= header_bytes(header) + (payload + rest));
    assert(entry =~= header_bytes(header) + payload);
    assert(data.subrange(HEADER_SIZE as int, entry_span(data)) =~= payload);
    assert(entry.subrange(HEADER_SIZE as int, entry_span(entry)) =~= payload);
    assert(data.take(entry_span(data)) =~= entry);
    lemma_decode_payload(v);
}

/// Encoding a value and decoding the result gives the value back.
pub proof fn law_round_trip(v: ValueView)
    requires
        encodable(v),
    ensures
        decode(entry_bytes(v)) == Ok::<ValueView, DecodeError>(v),
{
    lemma_decode_entry(v, Seq::empty());
    assert(entry_bytes(v) + Seq::<u8>::empty() =~= entry_bytes(v));
}

/// Where the entry at the front of `data` is all there, bytes added behind
/// `data` change nothing of what is read.
pub proof fn lemma_parse_ignores_rest(data: Seq<u8>, more: Seq<u8>)
    requires
        data.len() >= HEADER_SIZE,
        data.len() >= entry_span(data),
    ensures
        entry_span(data + more) == entry_span(data),
        decode(data + more) == decode(data),
        parse(data + more) == parse(data),
        entry_span(data) >= HEADER_SIZE ==> decode(data.take(entry_span(data))) == decode(data),
{
    let all = data + more;
    assert(all.subrange(0, 8) =~= data.subrange(0, 8));
    assert(all.subrange(8, 12) =~= data.subrange(8, 12));
    let span = entry_span(data);
    let cut = data.take(span);
    if span >= HEADER_SIZE {
        assert(all.subrange(HEADER_SIZE as int, span) =~= data.subrange(HEADER_SIZE as int, span));
        assert(cut.subrange(0, 8) =~= data.subrange(0, 8));
        assert(cut.subrange(8, 12) =~= data.subrange(8, 12));
        assert(cut.subrange(HEADER_SIZE as int, span) =~= data.subrange(HEADER_SIZE as int, span));
    }
    assert(all.take(span) =~= cut);
}

/// What decodes can be encoded: the lengths that a decoded value records
/// were read out of eight bytes each.
pub proof fn lemma_decoded_encodable(data: Seq<u8>)
    ensures
        decode(data) matches Ok(v) ==> encodable(v),
{
    lemma_auto_spec_u64_to_from_le_bytes();
    if let Ok(v) = decode(data) {
        let payload = data.subrange(HEADER_SIZE as int, entry_span(data));
        match v {
            ValueView::Text(s) => {
                let text = payload.subrange(8, 8 + le_u64_at(payload, 0));
                decode_utf8_encode_utf8(text);
            },
            _ => {},
        }
    }
}

/// An entry that parses takes at least a header and no more than there is,
/// holds a value that can be encoded, and decodes as it parses.
pub proof fn lemma_parsed(data: Seq<u8>)
    ensures
        parse(data) matches Ok(Some((v, used))) ==> {
            &&& encodable(v)
            &&& HEADER_SIZE <= used <= data.len()
            &&& used == entry_span(data)
            &&& decode(data) == Ok::<ValueView, DecodeError>(v)
        },
{
    if let Ok(Some((v, used))) = parse(data) {
        let cut = data.take(entry_span(data));
        lemma_decoded_encodable(cut);
        lemma_parse_ignores_rest(data, Seq::empty());
    }
}

} // verus!
