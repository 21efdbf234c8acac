//! Messages split into chunks for the wire, and chunks read back into
//! messages.

use crate::header::{
    header_bytes, header_read, is_valid_header, lemma_header_fields_round_trip, ChunkHeader,
    HeaderRead,
};
use vstd::prelude::*;

verus! {

/// The least of two sizes.
pub open spec fn min_nat(a: nat, b: nat) -> nat {
    if a <= b {
        a
    } else {
        b
    }
}

/// The chunks of `p` from its first byte on, `m` bytes at most each: each
/// led by the header with format 0 where it is the first chunk of the
/// message, format 3 where it continues one. An empty message is its
/// format-0 header alone.
pub open spec fn chunks_from(h: ChunkHeader, p: Seq<u8>, m: nat, first: bool) -> Seq<u8>
    decreases p.len(),
{
    if m == 0 {
        Seq::empty()
    } else if p.len() == 0 {
        if first {
            header_bytes(ChunkHeader { format: 0, ..h })
        } else {
            Seq::empty()
        }
    } else {
        let n = min_nat(m, p.len());
        header_bytes(ChunkHeader { format: if first { 0 } else { 3 }, ..h }) + p.subrange(0, n as int)
            + chunks_from(h, p.subrange(n as int, p.len() as int), m, false)
    }
}

/// The wire form of a message: its chunks, under a header that declares
/// the payload's length.
pub open spec fn chunked_message(h: ChunkHeader, p: Seq<u8>, m: nat) -> Seq<u8> {
    chunks_from(ChunkHeader { length: #[verifier::truncate] (p.len() as u32), ..h }, p, m, true)
}

/// Splits a message into chunks of at most `chunk_size` payload bytes: the
/// first under a format-0 header that declares the payload's length, the
/// others under format-3 headers; an empty message is one format-0 header
/// that declares length 0. The header is left as the last chunk had it.
pub fn write_message(chunk_size: usize, header: &mut ChunkHeader, payload: &[u8]) -> (r: Vec<u8>)
    requires
        chunk_size > 0,
    ensures
        r@ == chunked_message(*old(header), payload@, chunk_size as nat),
        *final(header) == (ChunkHeader {
            format: if payload@.len() <= chunk_size { 0 } else { 3 },
            length: #[verifier::truncate] (payload@.len() as u32),
            ..*old(header)
        }),
{
    let len = payload.len();
    if len == 0 {
        header.format = 0;
        header.length = 0;
        return header.as_bytes();
    }
    let ghost h = ChunkHeader { length: #[verifier::truncate] (len as u32), ..*header };
    assert(payload@.subrange(0, len as int) =~= payload@);
    let mut out: Vec<u8> = Vec::new();
    let mut nwrote: usize = 0;
    while nwrote < len
        invariant
            len == payload@.len(),
            nwrote <= len,
            chunk_size > 0,
            0 < nwrote < len ==> nwrote >= chunk_size,
            h == (ChunkHeader { length: #[verifier::truncate] (len as u32), ..*old(header) }),
            out@ + chunks_from(
                h,
                payload@.subrange(nwrote as int, len as int),
                chunk_size as nat,
                nwrote == 0,
            ) == chunked_message(*old(header), payload@, chunk_size as nat),
            nwrote == 0 ==> *header == *old(header),
            nwrote > 0 ==> *header == (ChunkHeader {
                format: if nwrote <= chunk_size { 0 } else { 3 },
                length: #[verifier::truncate] (len as u32),
                ..*old(header)
            }),
        decreases len - nwrote,
    {
        if nwrote == 0 {
            header.format = 0;
            header.length = #[verifier::truncate] (len as u32);
        } else {
            header.format = 3;
        }
        let data = header.as_bytes();
        let n = if chunk_size < len - nwrote {
            chunk_size
        } else {
            len - nwrote
        };
        let ghost rest = payload@.subrange(nwrote as int, len as int);
        proof {
            assert(*header == ChunkHeader { format: if nwrote == 0 { 0 } else { 3 }, ..h });
            assert(rest.subrange(0, n as int) =~= payload@.subrange(
                nwrote as int,
                (nwrote + n) as int,
            ));
            assert(rest.subrange(n as int, rest.len() as int) =~= payload@.subrange(
                (nwrote + n) as int,
                len as int,
            ));
        }
        let mut k: usize = nwrote;
        let mut chunk = data;
        while k < nwrote + n
            invariant
                nwrote <= k <= nwrote + n,
                nwrote + n <= len,
                len == payload@.len(),
                chunk@ == header_bytes(*header) + payload@.subrange(nwrote as int, k as int),
            decreases nwrote + n - k,
        {
            chunk.push(payload[k]);
            k = k + 1;
            assert(chunk@ =~= header_bytes(*header) + payload@.subrange(nwrote as int, k as int));
        }
        let ghost before = out@;
        out.append(&mut chunk);
        assert(out@ + chunks_from(
            h,
            payload@.subrange((nwrote + n) as int, len as int),
            chunk_size as nat,
            false,
        ) =~= before + chunks_from(h, rest, chunk_size as nat, nwrote == 0));
        nwrote = nwrote + n;
    }
    assert(out@ + Seq::<u8>::empty() =~= out@);
    out
}


/// Chunk `i` of a payload split at `m` bytes: the header, with format 0
/// for the first chunk and 3 for the others, then bytes `i * m` up to
/// `(i + 1) * m` of the payload (or its end).
pub open spec fn nth_chunk(h: ChunkHeader, p: Seq<u8>, m: nat, i: nat) -> Seq<u8> {
    header_bytes(ChunkHeader { format: if i == 0 { 0 } else { 3 }, ..h }) + p.subrange(
        (i * m) as int,
        min_nat((i + 1) * m, p.len()) as int,
    )
}

proof fn lemma_chunks_indexed_from(h: ChunkHeader, p: Seq<u8>, m: nat, k: nat, j: nat)
    requires
        m >= 1,
        k >= 1,
        (k - 1) * m < p.len() <= k * m,
        j * m < p.len(),
    ensures
        j < k,
        chunks_from(h, p.subrange((j * m) as int, p.len() as int), m, j == 0) == Seq::new(
            (k - j) as nat,
            |i: int| nth_chunk(h, p, m, (i + j) as nat),
        ).flatten(),
    decreases p.len() - j * m,
{
    let len = p.len();
    let q = p.subrange((j * m) as int, len as int);
    let n = min_nat(m, q.len());
    assert((j + 1) * m == j * m + m) by (nonlinear_arith);
    assert(j < k) by (nonlinear_arith)
        requires
            j * m < len,
            len <= k * m,
            m >= 1,
    ;
    assert(((j + 1) * m < len) == (j + 1 < k)) by (nonlinear_arith)
        requires
            (k - 1) * m < len,
            len <= k * m,
            m >= 1,
            j < k,
    ;
    let s = Seq::new((k - j) as nat, |i: int| nth_chunk(h, p, m, (i + j) as nat));
    assert(s.first() == nth_chunk(h, p, m, j));
    assert(q.subrange(0, n as int) =~= p.subrange(
        (j * m) as int,
        min_nat((j + 1) * m, len) as int,
    ));
    let rest = q.subrange(n as int, q.len() as int);
    if (j + 1) * m < len {
        lemma_chunks_indexed_from(h, p, m, k, j + 1);
        assert(rest =~= p.subrange(((j + 1) * m) as int, len as int));
        assert(s.drop_first() =~= Seq::new(
            (k - (j + 1)) as nat,
            |i: int| nth_chunk(h, p, m, (i + (j + 1)) as nat),
        ));
    } else {
        assert(rest.len() == 0);
        assert(s.drop_first().len() == 0);
        assert(s.drop_first().flatten() =~= Seq::<u8>::empty());
        assert(chunks_from(h, rest, m, false) =~= Seq::<u8>::empty());
    }
    assert(chunks_from(h, q, m, j == 0) =~= s.first() + s.drop_first().flatten());
}

/// The wire form of a non-empty message of `L` bytes split at `m`, in `k`
/// chunks (`(k - 1) * m < L <= k * m`), is chunk 0 to chunk `k - 1` one
/// after another: the header that declares `L`, format 0 for the first
/// chunk and 3 for the others, then bytes `i * m` up to `min((i + 1) * m,
/// L)` of the payload.
pub proof fn lemma_chunked_message_indexed(h: ChunkHeader, p: Seq<u8>, m: nat, k: nat)
    requires
        m >= 1,
        p.len() > 0,
        k >= 1,
        (k - 1) * m < p.len() <= k * m,
    ensures
        chunked_message(h, p, m) == Seq::new(
            k,
            |i: int|
                nth_chunk(
                    ChunkHeader { length: #[verifier::truncate] (p.len() as u32), ..h },
                    p,
                    m,
                    i as nat,
                ),
        ).flatten(),
{
    let hl = ChunkHeader { length: #[verifier::truncate] (p.len() as u32), ..h };
    assert(0 * m == 0) by (nonlinear_arith);
    lemma_chunks_indexed_from(hl, p, m, k, 0);
    assert(p.subrange(0, p.len() as int) =~= p);
    assert(Seq::new((k - 0) as nat, |i: int| nth_chunk(hl, p, m, (i + 0) as nat)) =~= Seq::new(
        k,
        |i: int| nth_chunk(hl, p, m, i as nat),
    ));
}

/// The payload that reading a message of `remaining` bytes from chunks
/// yields: after each chunk header, `m` bytes at most of what is left.
pub open spec fn reassembled(b: Seq<u8>, m: nat, remaining: nat) -> Seq<u8>
    decreases remaining,
{
    if remaining == 0 || m == 0 {
        Seq::empty()
    } else {
        match header_read(b) {
            HeaderRead::Complete { size, .. } => {
                let n = min_nat(m, remaining);
                b.subrange(size as int, size + n) + reassembled(
                    b.subrange(size + n, b.len() as int),
                    m,
                    (remaining - n) as nat,
                )
            },
            _ => Seq::empty(),
        }
    }
}

proof fn lemma_chunks_reassemble(h: ChunkHeader, p: Seq<u8>, m: nat, first: bool, rest: Seq<u8>)
    requires
        is_valid_header(h),
        m >= 1,
    ensures
        reassembled(chunks_from(h, p, m, first) + rest, m, p.len()) == p,
    decreases p.len(),
{
    if p.len() == 0 {
        assert(p =~= Seq::<u8>::empty());
    } else {
        let n = min_nat(m, p.len());
        let hf = ChunkHeader { format: if first { 0 } else { 3 }, ..h };
        let hb = header_bytes(hf);
        let head = p.subrange(0, n as int);
        let tail = p.subrange(n as int, p.len() as int);
        let later = chunks_from(h, tail, m, false);
        let b = chunks_from(h, p, m, first) + rest;
        assert(b =~= hb + (head + later + rest));
        lemma_header_fields_round_trip(hf, head + later + rest);
        let size = hb.len() as int;
        assert(b.subrange(size, size + n) =~= head);
        assert(b.subrange(size + n, b.len() as int) =~= later + rest);
        lemma_chunks_reassemble(h, tail, m, false, rest);
        assert(head + tail =~= p);
    }
}

/// Splitting a payload into chunks of at most `m` bytes and reading the
/// chunks back, `m` bytes at most after each header, gives the payload
/// back, whatever follows the chunks.
pub proof fn lemma_reassembly_round_trip(h: ChunkHeader, p: Seq<u8>, m: nat, rest: Seq<u8>)
    requires
        is_valid_header(h),
        p.len() < 0x1000000,
        m >= 1,
    ensures
        reassembled(chunked_message(h, p, m) + rest, m, p.len()) == p,
{
    let hl = ChunkHeader { length: #[verifier::truncate] (p.len() as u32), ..h };
    assert(hl.length == p.len());
    lemma_chunks_reassemble(hl, p, m, true, rest);
}

} // verus!
