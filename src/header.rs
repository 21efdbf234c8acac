//! The RTMP chunk header: its fields, its encoding, and its decoding.

use vstd::prelude::*;

verus! {

/// The sentinel of the 3-byte timestamp field: the real timestamp follows
/// in four more bytes.
pub const EXTENDED_TIMESTAMP: u32 = 0xffffff;

/// One chunk header: the basic header (format and chunk-stream id) and the
/// message header fields.
#[derive(Clone, Copy, Debug, Default, PartialEq, Eq)]
pub struct ChunkHeader {
    pub format: u32,
    pub cs_id: u32,
    pub timestamp: u32,
    pub length: u32,
    pub type_id: u32,
    pub stream_id: u32,
}

/// Three big-endian bytes: the low 24 bits of `v`.
pub open spec fn be24_bytes(v: u32) -> Seq<u8> {
    seq![(v >> 16u32) as u8, (v >> 8u32) as u8, v as u8]
}

/// Four big-endian bytes of `v`.
pub open spec fn be32_bytes(v: u32) -> Seq<u8> {
    seq![(v >> 24u32) as u8, (v >> 16u32) as u8, (v >> 8u32) as u8, v as u8]
}

/// Four little-endian bytes of `v`.
pub open spec fn le32_bytes(v: u32) -> Seq<u8> {
    seq![v as u8, (v >> 8u32) as u8, (v >> 16u32) as u8, (v >> 24u32) as u8]
}

/// The basic header: one byte for ids below 64, two for ids in [64, 319],
/// three (a big-endian `u16` biased by 64) from 320 on.
pub open spec fn basic_header_bytes(format: u32, cs_id: u32) -> Seq<u8> {
    if cs_id >= 320 {
        seq![((format << 6u32) | 1u32) as u8, (((cs_id - 64) as u32) >> 8u32) as u8, (cs_id - 64) as u8]
    } else if cs_id >= 64 {
        seq![(format << 6u32) as u8, (cs_id - 64) as u8]
    } else {
        seq![((format << 6u32) | cs_id) as u8]
    }
}

/// Whether a header of this format carries a timestamp field.
pub open spec fn has_timestamp(format: u32) -> bool {
    format <= 2
}

/// Whether the timestamp needs the 4-byte extension.
pub open spec fn is_extended(h: ChunkHeader) -> bool {
    has_timestamp(h.format) && h.timestamp >= EXTENDED_TIMESTAMP
}

/// The value written in the 3-byte timestamp field.
pub open spec fn timestamp_field(ts: u32) -> u32 {
    if ts >= EXTENDED_TIMESTAMP {
        EXTENDED_TIMESTAMP
    } else {
        ts
    }
}

/// The message header of the header's format, without the extension.
pub open spec fn message_header_bytes(h: ChunkHeader) -> Seq<u8> {
    let ts = be24_bytes(timestamp_field(h.timestamp));
    if h.format == 0 {
        ts + be24_bytes(h.length) + seq![h.type_id as u8] + le32_bytes(h.stream_id)
    } else if h.format == 1 {
        ts + be24_bytes(h.length) + seq![h.type_id as u8]
    } else if h.format == 2 {
        ts
    } else {
        Seq::empty()
    }
}

/// The extended timestamp bytes, where the timestamp needs them.
pub open spec fn extension_bytes(h: ChunkHeader) -> Seq<u8> {
    if is_extended(h) {
        be32_bytes(h.timestamp)
    } else {
        Seq::empty()
    }
}

/// The whole encoded header.
pub open spec fn header_bytes(h: ChunkHeader) -> Seq<u8> {
    basic_header_bytes(h.format, h.cs_id) + message_header_bytes(h) + extension_bytes(h)
}

fn push_be24(data: &mut Vec<u8>, v: u32)
    ensures
        final(data)@ == old(data)@ + be24_bytes(v),
{
    data.push((v >> 16) as u8);
    data.push((v >> 8) as u8);
    data.push(v as u8);
}

fn push_be32(data: &mut Vec<u8>, v: u32)
    ensures
        final(data)@ == old(data)@ + be32_bytes(v),
{
    data.push((v >> 24) as u8);
    data.push((v >> 16) as u8);
    data.push((v >> 8) as u8);
    data.push(v as u8);
}

impl ChunkHeader {
    /// Encodes the header: basic header, the message header of its format,
    /// and the extended timestamp where the timestamp is `0xffffff` or more.
    pub fn as_bytes(&self) -> (r: Vec<u8>)
        ensures
            r@ == header_bytes(*self),
    {
        let mut data: Vec<u8> = Vec::new();
        let format = self.format;
        let cs_id = self.cs_id;
        if cs_id >= 320 {
            data.push(((format << 6) | 1) as u8);
            data.push(((cs_id - 64) >> 8) as u8);
            data.push((cs_id - 64) as u8);
        } else if cs_id >= 64 {
            data.push((format << 6) as u8);
            data.push((cs_id - 64) as u8);
        } else {
            data.push(((format << 6) | cs_id) as u8);
        }
        let ts = if self.timestamp >= EXTENDED_TIMESTAMP {
            EXTENDED_TIMESTAMP
        } else {
            self.timestamp
        };
        if format <= 2 {
            push_be24(&mut data, ts);
        }
        if format <= 1 {
            push_be24(&mut data, self.length);
            data.push(self.type_id as u8);
        }
        if format == 0 {
            data.push(self.stream_id as u8);
            data.push((self.stream_id >> 8) as u8);
            data.push((self.stream_id >> 16) as u8);
            data.push((self.stream_id >> 24) as u8);
        }
        if format <= 2 && self.timestamp >= EXTENDED_TIMESTAMP {
            push_be32(&mut data, self.timestamp);
        }
        proof {
            assert(data@ =~= header_bytes(*self));
        }
        data
    }
}


/// The outcome of reading a header from the front of a buffer.
#[derive(Clone, Copy, Debug, PartialEq, Eq)]
pub enum HeaderRead {
    /// The header, and how many bytes it took.
    Complete { header: ChunkHeader, size: usize },
    /// The buffer is too short: at least `needed` bytes are required.
    Incomplete { needed: usize },
}

/// The format in the top two bits of the basic header byte.
pub open spec fn format_of(b0: u8) -> u32 {
    (b0 >> 6u8) as u32
}

/// The chunk-stream selector in the low six bits of the basic header byte.
pub open spec fn selector_of(b0: u8) -> u8 {
    b0 & 0x3fu8
}

/// Bytes that follow the basic header byte to hold a large chunk-stream id.
pub open spec fn id_extra_len(b0: u8) -> nat {
    if selector_of(b0) == 0 {
        1
    } else if selector_of(b0) == 1 {
        2
    } else {
        0
    }
}

/// Length of the message header of each format.
pub open spec fn fields_len(format: u32) -> nat {
    if format == 0 {
        11
    } else if format == 1 {
        7
    } else if format == 2 {
        3
    } else {
        0
    }
}

/// Length of the header before any extended timestamp.
pub open spec fn fixed_len(b0: u8) -> nat {
    1 + id_extra_len(b0) + fields_len(format_of(b0))
}

/// Three big-endian bytes at `i`.
pub open spec fn be24_at(b: Seq<u8>, i: int) -> u32 {
    (b[i] as int * 65536 + b[i + 1] as int * 256 + b[i + 2] as int) as u32
}

/// Four big-endian bytes at `i`.
pub open spec fn be32_at(b: Seq<u8>, i: int) -> u32 {
    (b[i] as int * 16777216 + b[i + 1] as int * 65536 + b[i + 2] as int * 256
        + b[i + 3] as int) as u32
}

/// Four little-endian bytes at `i`.
pub open spec fn le32_at(b: Seq<u8>, i: int) -> u32 {
    (b[i + 3] as int * 16777216 + b[i + 2] as int * 65536 + b[i + 1] as int * 256
        + b[i] as int) as u32
}

/// The chunk-stream id that the basic header gives.
pub open spec fn decoded_cs_id(b: Seq<u8>) -> u32 {
    if selector_of(b[0]) == 0 {
        (b[1] as int + 64) as u32
    } else if selector_of(b[0]) == 1 {
        (b[1] as int * 256 + b[2] as int + 64) as u32
    } else {
        selector_of(b[0]) as u32
    }
}

/// The header as its fixed part gives it; fields the format lacks are 0.
pub open spec fn fixed_header(b: Seq<u8>) -> ChunkHeader {
    let format = format_of(b[0]);
    let p = 1 + id_extra_len(b[0]) as int;
    ChunkHeader {
        format,
        cs_id: decoded_cs_id(b),
        timestamp: if format <= 2 { be24_at(b, p) } else { 0 },
        length: if format <= 1 { be24_at(b, p + 3) } else { 0 },
        type_id: if format <= 1 { b[p + 6] as u32 } else { 0 },
        stream_id: if format == 0 { le32_at(b, p + 7) } else { 0 },
    }
}

/// Whether the fixed part ends in the extended-timestamp sentinel.
pub open spec fn reads_extension(b: Seq<u8>) -> bool {
    fixed_header(b).timestamp == EXTENDED_TIMESTAMP
}

/// The whole length of the header at the front of `b`.
pub open spec fn header_size(b: Seq<u8>) -> nat {
    fixed_len(b[0]) + if reads_extension(b) { 4nat } else { 0nat }
}

/// The header at the front of `b`, with its extended timestamp applied.
pub open spec fn decoded_header(b: Seq<u8>) -> ChunkHeader {
    if reads_extension(b) {
        ChunkHeader { timestamp: be32_at(b, fixed_len(b[0]) as int), ..fixed_header(b) }
    } else {
        fixed_header(b)
    }
}

/// What reading a header from the front of `b` yields.
#[verifier::opaque]
pub open spec fn header_read(b: Seq<u8>) -> HeaderRead {
    if b.len() == 0 {
        HeaderRead::Incomplete { needed: 1 }
    } else if b.len() < fixed_len(b[0]) {
        HeaderRead::Incomplete { needed: fixed_len(b[0]) as usize }
    } else if b.len() < header_size(b) {
        HeaderRead::Incomplete { needed: header_size(b) as usize }
    } else {
        HeaderRead::Complete { header: decoded_header(b), size: header_size(b) as usize }
    }
}

fn be24_of(buf: &[u8], i: usize) -> (r: u32)
    requires
        i + 3 <= buf@.len(),
    ensures
        r == be24_at(buf@, i as int),
{
    let _len = buf.len();  // bounds the indices below by usize::MAX
    (buf[i] as u32) * 65536 + (buf[i + 1] as u32) * 256 + (buf[i + 2] as u32)
}

fn be32_of(buf: &[u8], i: usize) -> (r: u32)
    requires
        i + 4 <= buf@.len(),
    ensures
        r == be32_at(buf@, i as int),
{
    let _len = buf.len();  // bounds the indices below by usize::MAX
    (buf[i] as u32) * 16777216 + (buf[i + 1] as u32) * 65536 + (buf[i + 2] as u32) * 256 + (
    buf[i + 3] as u32)
}

fn le32_of(buf: &[u8], i: usize) -> (r: u32)
    requires
        i + 4 <= buf@.len(),
    ensures
        r == le32_at(buf@, i as int),
{
    let _len = buf.len();  // bounds the indices below by usize::MAX
    (buf[i + 3] as u32) * 16777216 + (buf[i + 2] as u32) * 65536 + (buf[i + 1] as u32) * 256 + (
    buf[i] as u32)
}

/// Reads the chunk header at the front of `buf`: the basic header, the
/// chunk-stream id extension, the message header of its format, and the
/// extended timestamp where the 3-byte field is `0xffffff`. Where `buf` is
/// too short, says how many bytes are needed so far.
pub fn read_header(buf: &[u8]) -> (r: HeaderRead)
    ensures
        r == header_read(buf@),
        r matches HeaderRead::Complete { size, .. } ==> 1 <= size <= buf@.len(),
{
    reveal(header_read);
    if buf.len() == 0 {
        return HeaderRead::Incomplete { needed: 1 };
    }
    let b0 = buf[0];
    let format = (b0 >> 6) as u32;
    let sel = b0 & 0x3f;
    let extra: usize = if sel == 0 {
        1
    } else if sel == 1 {
        2
    } else {
        0
    };
    let fields: usize = if format == 0 {
        11
    } else if format == 1 {
        7
    } else if format == 2 {
        3
    } else {
        0
    };
    let fixed = 1 + extra + fields;
    if buf.len() < fixed {
        return HeaderRead::Incomplete { needed: fixed };
    }
    let cs_id = if sel == 0 {
        buf[1] as u32 + 64
    } else if sel == 1 {
        (buf[1] as u32) * 256 + (buf[2] as u32) + 64
    } else {
        sel as u32
    };
    let p = 1 + extra;
    let mut header = ChunkHeader {
        format,
        cs_id,
        timestamp: 0,
        length: 0,
        type_id: 0,
        stream_id: 0,
    };
    if format <= 2 {
        header.timestamp = be24_of(buf, p);
    }
    if format <= 1 {
        header.length = be24_of(buf, p + 3);
        header.type_id = buf[p + 6] as u32;
    }
    if format == 0 {
        header.stream_id = le32_of(buf, p + 7);
    }
    assert(header == fixed_header(buf@));
    if header.timestamp == EXTENDED_TIMESTAMP {
        if buf.len() < fixed + 4 {
            return HeaderRead::Incomplete { needed: fixed + 4 };
        }
        header.timestamp = be32_of(buf, fixed);
        HeaderRead::Complete { header, size: fixed + 4 }
    } else {
        HeaderRead::Complete { header, size: fixed }
    }
}


/// Header fields that fit their wire fields, with a chunk-stream id that is
/// no extension marker and that the 2-byte extension can hold.
pub open spec fn is_valid_header(h: ChunkHeader) -> bool {
    &&& h.format <= 3
    &&& 2 <= h.cs_id < 65600
    &&& h.length < 0x1000000
    &&& h.type_id < 256
}

/// The header as a decoder sees it: fields that its format does not carry
/// are 0.
pub open spec fn carried_fields(h: ChunkHeader) -> ChunkHeader {
    ChunkHeader {
        format: h.format,
        cs_id: h.cs_id,
        timestamp: if has_timestamp(h.format) { h.timestamp } else { 0 },
        length: if h.format <= 1 { h.length } else { 0 },
        type_id: if h.format <= 1 { h.type_id } else { 0 },
        stream_id: if h.format == 0 { h.stream_id } else { 0 },
    }
}

proof fn lemma_be24_value(v: u32)
    requires
        v < 0x1000000,
    ensures
        ((v >> 16u32) as u8) as int * 65536 + ((v >> 8u32) as u8) as int * 256 + (v as u8) as int
            == v,
{
    assert(((v >> 16u32) as u8) as u32 * 65536u32 + ((v >> 8u32) as u8) as u32 * 256u32 + (
    v as u8) as u32 == v) by (bit_vector)
        requires
            v < 0x1000000u32,
    ;
}

proof fn lemma_be32_value(v: u32)
    ensures
        ((v >> 24u32) as u8) as int * 16777216 + ((v >> 16u32) as u8) as int * 65536 + ((v
            >> 8u32) as u8) as int * 256 + (v as u8) as int == v,
{
    assert(((v >> 24u32) as u8) as u64 * 16777216u64 + ((v >> 16u32) as u8) as u64 * 65536u64 + ((
    v >> 8u32) as u8) as u64 * 256u64 + (v as u8) as u64 == v as u64) by (bit_vector);
}

proof fn lemma_basic_byte(format: u32, low: u32)
    requires
        format <= 3,
        low < 64,
    ensures
        format_of(((format << 6u32) | low) as u8) == format,
        selector_of(((format << 6u32) | low) as u8) == low,
{
    let b = ((format << 6u32) | low) as u8;
    assert(((b >> 6u8) as u32) == format && (b & 0x3fu8) as u32 == low) by (bit_vector)
        requires
            format <= 3u32,
            low < 64u32,
            b == ((format << 6u32) | low) as u8,
    ;
}

proof fn lemma_cs_id_bytes(c: u32)
    requires
        64 <= c < 65600,
    ensures
        c < 320 ==> ((c - 64) as u8) as int + 64 == c,
        c >= 320 ==> ((((c - 64) as u32) >> 8u32) as u8) as int * 256 + ((c - 64) as u8) as int
            + 64 == c,
{
    let d = (c - 64) as u32;
    assert(d < 256u32 ==> (d as u8) as u32 == d) by (bit_vector);
    assert(d < 65536u32 ==> ((d >> 8u32) as u8) as u32 * 256u32 + (d as u8) as u32 == d)
        by (bit_vector);
}

/// The chunk-stream id takes one byte below 64, two in [64, 319] and three
/// from 320 on; for every id but the two extension markers 0 and 1, the
/// basic header gives back the format and the id.
pub proof fn lemma_cs_id_forms(format: u32, cs_id: u32, rest: Seq<u8>)
    requires
        format <= 3,
        cs_id < 65600,
    ensures
        basic_header_bytes(format, cs_id).len() == if cs_id < 64 {
            1int
        } else if cs_id < 320 {
            2int
        } else {
            3int
        },
        2 <= cs_id ==> ({
            let b = basic_header_bytes(format, cs_id) + rest;
            &&& format_of(b[0]) == format
            &&& 1 + id_extra_len(b[0]) == basic_header_bytes(format, cs_id).len()
            &&& decoded_cs_id(b) == cs_id
        }),
{
    let b = basic_header_bytes(format, cs_id) + rest;
    if cs_id >= 320 {
        lemma_basic_byte(format, 1);
        lemma_cs_id_bytes(cs_id);
    } else if cs_id >= 64 {
        lemma_basic_byte(format, 0);
        assert(((format << 6u32) | 0u32) == (format << 6u32)) by (bit_vector);
        lemma_cs_id_bytes(cs_id);
    } else {
        lemma_basic_byte(format, cs_id);
    }
    assert(b[0] == basic_header_bytes(format, cs_id)[0]);
}

/// Decoding an encoded header gives back every field that its format
/// carries, and takes exactly the encoded bytes, whatever follows them.
pub proof fn lemma_header_fields_round_trip(h: ChunkHeader, rest: Seq<u8>)
    requires
        is_valid_header(h),
    ensures
        header_read(header_bytes(h) + rest) == (HeaderRead::Complete {
            header: carried_fields(h),
            size: header_bytes(h).len() as usize,
        }),
{
    reveal(header_read);
    let basic = basic_header_bytes(h.format, h.cs_id);
    let mh = message_header_bytes(h);
    let ext = extension_bytes(h);
    let b = header_bytes(h) + rest;
    assert(b =~= basic + (mh + ext + rest));
    lemma_cs_id_forms(h.format, h.cs_id, mh + ext + rest);
    let p = basic.len() as int;
    assert(b.subrange(p, b.len() as int) =~= mh + ext + rest);
    let ts = timestamp_field(h.timestamp);
    assert(ts < 0x1000000);
    lemma_be24_value(ts);
    lemma_be24_value(h.length);
    lemma_be32_value(h.timestamp);
    assert(le32_at(le32_bytes(h.stream_id), 0) == h.stream_id) by {
        lemma_be32_value(h.stream_id);
    }
    assert(fixed_len(b[0]) == p + mh.len());
    if h.format <= 2 {
        assert(b[p] == mh[0] && b[p + 1] == mh[1] && b[p + 2] == mh[2]);
        assert(fixed_header(b).timestamp == ts);
    }
    if h.format <= 1 {
        assert(b[p + 3] == mh[3] && b[p + 4] == mh[4] && b[p + 5] == mh[5] && b[p + 6] == mh[6]);
        assert(fixed_header(b).length == h.length);
        assert(fixed_header(b).type_id == h.type_id);
    }
    if h.format == 0 {
        assert(b[p + 7] == mh[7] && b[p + 8] == mh[8] && b[p + 9] == mh[9] && b[p + 10]
            == mh[10]);
        assert(fixed_header(b).stream_id == h.stream_id);
    }
    if is_extended(h) {
        let q = p + mh.len() as int;
        assert(b[q] == ext[0] && b[q + 1] == ext[1] && b[q + 2] == ext[2] && b[q + 3] == ext[3]);
        assert(reads_extension(b));
        assert(decoded_header(b) == carried_fields(h));
    } else {
        assert(!reads_extension(b));
        assert(decoded_header(b) == carried_fields(h));
    }
}

/// A full (format 0) header of valid fields decodes to itself.
pub proof fn lemma_header_round_trip(h: ChunkHeader, rest: Seq<u8>)
    requires
        is_valid_header(h),
        h.format == 0,
    ensures
        header_read(header_bytes(h) + rest) == (HeaderRead::Complete {
            header: h,
            size: header_bytes(h).len() as usize,
        }),
{
    lemma_header_fields_round_trip(h, rest);
}

/// A timestamp of `0x1000000` or more is written as `0xffffff` followed by
/// its four bytes, and reads back exactly; one below `0xffffff` is written
/// in the 3-byte field alone.
pub proof fn lemma_extended_timestamp(h: ChunkHeader, rest: Seq<u8>)
    requires
        is_valid_header(h),
        has_timestamp(h.format),
    ensures
        h.timestamp >= 0x1000000 ==> {
            &&& timestamp_field(h.timestamp) == EXTENDED_TIMESTAMP
            &&& extension_bytes(h) == be32_bytes(h.timestamp)
        },
        h.timestamp < EXTENDED_TIMESTAMP ==> {
            &&& timestamp_field(h.timestamp) == h.timestamp
            &&& extension_bytes(h) == Seq::<u8>::empty()
        },
        header_read(header_bytes(h) + rest) matches HeaderRead::Complete { header, .. }
            && header.timestamp == h.timestamp,
{
    lemma_header_fields_round_trip(h, rest);
}

} // verus!
