//! The per-connection reading side: chunks are read into messages, field
//! inheritance is applied, Set Chunk Size and command messages are acted
//! on, and each message is chunked again for the server.

use crate::binorder::{be_u32, to_be_u32};
use crate::chunk::{chunked_message, chunks_from, min_nat, write_message};
use crate::command::{hijack_command_message, intercepted, CommandError};
use crate::config::{config_writable, Config};
use crate::header::{
    carried_fields, fixed_len, header_bytes, header_read, is_valid_header,
    lemma_header_fields_round_trip, read_header, ChunkHeader, HeaderRead,
};
use vstd::prelude::*;
use vstd::slice::slice_subrange;

verus! {

/// The chunk size that a connection starts with.
pub const DEFAULT_CHUNK_SIZE: usize = 128;

/// The message type that sets the chunk size.
pub const SET_CHUNK_SIZE: u32 = 1;

/// The message type of an AMF0 command.
pub const AMF0_COMMAND: u32 = 20;

/// Why a connection cannot go on.
#[derive(Clone, Copy, Debug, PartialEq, Eq)]
pub enum ProxyError {
    /// A chunk of another chunk stream arrived inside a message.
    InterleavedChunkStream,
    /// A header inside a message declared another message length.
    MessageLengthChanged,
    /// A Set Chunk Size payload is not four bytes.
    BadChunkSizePayload,
    /// A Set Chunk Size message asked for chunks of no bytes.
    ZeroChunkSize,
    /// A command message could not be intercepted.
    Command(CommandError),
    /// The input ended inside a chunk.
    Truncated,
}

/// The model of a `ChunkReader`.
pub struct ReaderModel {
    /// The last header, with inherited fields filled in.
    pub last_header: ChunkHeader,
    /// The chunk size that reading and writing use.
    pub max_chunk_size: nat,
    /// The bytes of the current message read so far.
    pub received: Seq<u8>,
    /// Whether `publish` has been intercepted.
    pub done: bool,
}

/// Reads the chunks of one direction of a connection into messages.
pub struct ChunkReader {
    last_header: ChunkHeader,
    max_chunk_size: usize,
    payload: Vec<u8>,
    nread: usize,
    done: bool,
}

impl View for ChunkReader {
    type V = ReaderModel;

    closed spec fn view(&self) -> ReaderModel {
        ReaderModel {
            last_header: self.last_header,
            max_chunk_size: self.max_chunk_size as nat,
            received: self.payload@.subrange(0, self.nread as int),
            done: self.done,
        }
    }
}

/// The header with the fields that its format omits taken from the last
/// header: format 1 inherits the stream id; format 2 also the length and
/// the type; format 3 also the timestamp.
pub open spec fn inherited(last: ChunkHeader, h: ChunkHeader) -> ChunkHeader {
    if h.format == 1 {
        ChunkHeader { stream_id: last.stream_id, ..h }
    } else if h.format == 2 {
        ChunkHeader {
            length: last.length,
            type_id: last.type_id,
            stream_id: last.stream_id,
            ..h
        }
    } else if h.format == 3 {
        ChunkHeader {
            timestamp: last.timestamp,
            length: last.length,
            type_id: last.type_id,
            stream_id: last.stream_id,
            ..h
        }
    } else {
        h
    }
}

/// The resolved header of the next chunk and how many payload bytes follow
/// it: the chunk size at most, and no more than the message still lacks.
pub open spec fn chunk_plan(s: ReaderModel, h: ChunkHeader) -> Result<(ChunkHeader, nat), ProxyError> {
    let r = inherited(s.last_header, h);
    if s.received.len() != 0 && h.cs_id != s.last_header.cs_id {
        Err(ProxyError::InterleavedChunkStream)
    } else if s.received.len() != 0 && r.length != s.last_header.length {
        Err(ProxyError::MessageLengthChanged)
    } else {
        Ok((r, min_nat(s.max_chunk_size, (r.length - s.received.len()) as nat)))
    }
}

/// A complete message: Set Chunk Size changes the chunk size, a command is
/// intercepted, and the message is chunked for the server with the chunk
/// size now in force.
pub open spec fn message_done(s: ReaderModel, r: ChunkHeader, msg: Seq<u8>, cfg: Config) -> Result<
    (ReaderModel, Seq<u8>),
    ProxyError,
> {
    if r.type_id == SET_CHUNK_SIZE {
        if msg.len() != 4 {
            Err(ProxyError::BadChunkSizePayload)
        } else if be_u32(msg) == 0 {
            Err(ProxyError::ZeroChunkSize)
        } else {
            let m = be_u32(msg) as nat;
            Ok(
                (
                    ReaderModel { last_header: r, max_chunk_size: m, received: Seq::empty(), ..s },
                    chunked_message(r, msg, m),
                ),
            )
        }
    } else if r.type_id == AMF0_COMMAND {
        match intercepted(msg, cfg) {
            Ok((out, d)) => Ok(
                (
                    ReaderModel { last_header: r, received: Seq::empty(), done: d, ..s },
                    chunked_message(r, out, s.max_chunk_size),
                ),
            ),
            Err(e) => Err(ProxyError::Command(e)),
        }
    } else {
        Ok(
            (
                ReaderModel { last_header: r, received: Seq::empty(), ..s },
                chunked_message(r, msg, s.max_chunk_size),
            ),
        )
    }
}

/// One chunk read: the new state, and the bytes for the server where the
/// chunk completes a message.
pub open spec fn chunk_step(s: ReaderModel, h: ChunkHeader, body: Seq<u8>, cfg: Config) -> Result<
    (ReaderModel, Option<Seq<u8>>),
    ProxyError,
> {
    match chunk_plan(s, h) {
        Err(e) => Err(e),
        Ok((r, _)) => {
            let msg = s.received + body;
            if msg.len() < r.length {
                Ok((ReaderModel { last_header: r, received: msg, ..s }, None))
            } else {
                match message_done(s, r, msg, cfg) {
                    Ok((s2, out)) => Ok((s2, Some(out))),
                    Err(e) => Err(e),
                }
            }
        },
    }
}

/// The model of the bytes a chunk may complete.
pub open spec fn bytes_of(o: Option<Vec<u8>>) -> Option<Seq<u8>> {
    match o {
        Some(v) => Some(v@),
        None => None,
    }
}

impl ChunkReader {
    /// The reader's internal consistency.
    pub closed spec fn wf(&self) -> bool {
        &&& self.max_chunk_size > 0
        &&& self.nread <= self.payload@.len()
        &&& self.nread > 0 ==> {
            &&& self.payload@.len() == self.last_header.length
            &&& self.nread < self.payload@.len()
        }
    }

    /// A reader at the start of a connection: no message under way, chunks
    /// of 128 bytes.
    pub fn new() -> (r: Self)
        ensures
            r.wf(),
            r@ == (ReaderModel {
                last_header: ChunkHeader {
                    format: 0,
                    cs_id: 0,
                    timestamp: 0,
                    length: 0,
                    type_id: 0,
                    stream_id: 0,
                },
                max_chunk_size: DEFAULT_CHUNK_SIZE as nat,
                received: Seq::empty(),
                done: false,
            }),
    {
        let r = ChunkReader {
            last_header: ChunkHeader {
                format: 0,
                cs_id: 0,
                timestamp: 0,
                length: 0,
                type_id: 0,
                stream_id: 0,
            },
            max_chunk_size: DEFAULT_CHUNK_SIZE,
            payload: Vec::new(),
            nread: 0,
            done: false,
        };
        assert(r@.received =~= Seq::<u8>::empty());
        r
    }

    /// The chunk size in force.
    pub fn max_chunk_size(&self) -> (r: usize)
        ensures
            r == self@.max_chunk_size,
    {
        self.max_chunk_size
    }

    /// Whether `publish` has been intercepted.
    pub fn is_done(&self) -> (r: bool)
        ensures
            r == self@.done,
    {
        self.done
    }

    /// How many payload bytes follow the chunk header `header`, or why the
    /// header cannot come now.
    pub fn body_len(&self, header: ChunkHeader) -> (r: Result<usize, ProxyError>)
        requires
            self.wf(),
        ensures
            match chunk_plan(self@, header) {
                Ok((_, n)) => r == Ok::<usize, ProxyError>(n as usize),
                Err(e) => r == Err::<usize, ProxyError>(e),
            },
    {
        let last = self.last_header;
        let length = if header.format == 2 || header.format == 3 {
            last.length
        } else {
            header.length
        };
        if self.nread != 0 && header.cs_id != last.cs_id {
            return Err(ProxyError::InterleavedChunkStream);
        }
        if self.nread != 0 && length != last.length {
            return Err(ProxyError::MessageLengthChanged);
        }
        let remaining = length as usize - self.nread;
        if self.max_chunk_size < remaining {
            Ok(self.max_chunk_size)
        } else {
            Ok(remaining)
        }
    }

    /// Reads one chunk: its header and the payload bytes that follow it.
    /// Where the chunk completes a message, returns the bytes to send on.
    pub fn accept_chunk(&mut self, header: ChunkHeader, body: &[u8], config: &Config) -> (r: Result<
        Option<Vec<u8>>,
        ProxyError,
    >)
        requires
            old(self).wf(),
            chunk_plan(old(self)@, header) matches Ok((_, n)) && body@.len() == n,
            config_writable(*config),
        ensures
            match chunk_step(old(self)@, header, body@, *config) {
                Ok((s, out)) => r matches Ok(o) && bytes_of(o) == out && final(self)@ == s
                    && final(self).wf(),
                Err(e) => r == Err::<Option<Vec<u8>>, ProxyError>(e),
            },
    {
        let n = body.len();
        let last = self.last_header;
        let mut h = header;
        if header.format == 1 {
            h.stream_id = last.stream_id;
        } else if header.format == 2 {
            h.length = last.length;
            h.type_id = last.type_id;
            h.stream_id = last.stream_id;
        } else if header.format == 3 {
            h.timestamp = last.timestamp;
            h.length = last.length;
            h.type_id = last.type_id;
            h.stream_id = last.stream_id;
        }
        assert(h == inherited(last, header));
        let ghost s = self@;
        self.last_header = h;
        let length = h.length as usize;
        if self.payload.len() != length {
            self.payload.resize(length, 0);
        }
        let start = self.nread;
        assert(self.payload@.subrange(0, start as int) =~= s.received);
        let mut i: usize = 0;
        while i < n
            invariant
                self.max_chunk_size == s.max_chunk_size,
                s.max_chunk_size > 0,
                self.last_header == h,
                self.done == s.done,
                self.nread == start,
                n == body@.len(),
                start + n <= length,
                self.payload@.len() == length,
                self.payload@.subrange(0, (start + i) as int) == s.received + body@.subrange(
                    0,
                    i as int,
                ),
                i <= n,
            decreases n - i,
        {
            let ghost prev = self.payload@;
            self.payload.set(start + i, body[i]);
            assert(self.payload@.subrange(0, (start + i) as int) =~= prev.subrange(
                0,
                (start + i) as int,
            ));
            assert(body@.subrange(0, i + 1) =~= body@.subrange(0, i as int).push(body[i as int]));
            i = i + 1;
            assert(self.payload@.subrange(0, (start + i) as int) =~= s.received
                + body@.subrange(0, i as int));
        }
        self.nread = start + n;
        assert(body@.subrange(0, n as int) =~= body@);
        if self.nread < length {
            return Ok(None);
        }
        assert(self.payload@.subrange(0, length as int) =~= self.payload@);
        if h.type_id == SET_CHUNK_SIZE {
            let size = match to_be_u32(self.payload.as_slice()) {
                Ok(v) => v,
                Err(_) => return Err(ProxyError::BadChunkSizePayload),
            };
            if size == 0 {
                return Err(ProxyError::ZeroChunkSize);
            }
            self.max_chunk_size = size as usize;
        } else if h.type_id == AMF0_COMMAND {
            match hijack_command_message(&mut self.payload, config) {
                Ok(d) => self.done = d,
                Err(e) => return Err(ProxyError::Command(e)),
            }
        }
        let mut out_header = h;
        let out = write_message(self.max_chunk_size, &mut out_header, self.payload.as_slice());
        self.nread = 0;
        assert(self@.received =~= Seq::<u8>::empty());
        Ok(Some(out))
    }
}


/// The state of a reader at the start of a connection.
pub open spec fn initial_reader() -> ReaderModel {
    ReaderModel {
        last_header: ChunkHeader {
            format: 0,
            cs_id: 0,
            timestamp: 0,
            length: 0,
            type_id: 0,
            stream_id: 0,
        },
        max_chunk_size: DEFAULT_CHUNK_SIZE as nat,
        received: Seq::empty(),
        done: false,
    }
}

/// Reading chunks from `b` until a message completes the interception:
/// the bytes for the server of the messages completed, how many bytes of
/// `b` the chunks read took, and the error that stopped the reading, or
/// `None` once `publish` has been intercepted.
#[verifier::opaque]
pub open spec fn run(s: ReaderModel, b: Seq<u8>, cfg: Config) -> (Seq<u8>, nat, Option<ProxyError>)
    decreases b.len(),
{
    match header_read(b) {
        HeaderRead::Complete { header, size } => {
            match chunk_plan(s, header) {
                Ok((_, n)) => if size == 0 || b.len() < size + n {
                    (Seq::empty(), 0, Some(ProxyError::Truncated))
                } else {
                    let used = size + n;
                    match chunk_step(s, header, b.subrange(size as int, used), cfg) {
                        Ok((s2, out)) => {
                            let o = match out {
                                Some(x) => x,
                                None => Seq::empty(),
                            };
                            if s2.done {
                                (o, used as nat, None)
                            } else {
                                let (o2, u2, e) = run(s2, b.subrange(used, b.len() as int), cfg);
                                (o + o2, (used + u2) as nat, e)
                            }
                        },
                        Err(e) => (Seq::empty(), 0, Some(e)),
                    }
                },
                Err(e) => (Seq::empty(), 0, Some(e)),
            }
        },
        HeaderRead::Incomplete { .. } => (Seq::empty(), 0, Some(ProxyError::Truncated)),
    }
}

/// Where the input ends inside a chunk header (a basic header that
/// announces more id or message header bytes than follow it), the reading
/// stops with `Truncated`, forwards nothing more and takes no byte of that
/// chunk, whatever the state.
pub proof fn lemma_short_header_stops(s: ReaderModel, b: Seq<u8>, cfg: Config)
    requires
        b.len() == 0 || b.len() < fixed_len(b[0]),
    ensures
        run(s, b, cfg) == (Seq::<u8>::empty(), 0nat, Some(ProxyError::Truncated)),
{
    reveal(header_read);
    reveal(run);
}

/// One chunk of reading: where the header and its payload bytes are all
/// there and the chunk is accepted, reading goes on after it.
proof fn lemma_run_step(
    s: ReaderModel,
    b: Seq<u8>,
    cfg: Config,
    header: ChunkHeader,
    size: nat,
    r: ChunkHeader,
    n: nat,
    s2: ReaderModel,
    out: Option<Seq<u8>>,
)
    requires
        header_read(b) == (HeaderRead::Complete { header, size: size as usize }),
        size >= 1,
        size < 0x1000000,
        chunk_plan(s, header) == Ok::<(ChunkHeader, nat), ProxyError>((r, n)),
        size + n <= b.len(),
        chunk_step(s, header, b.subrange(size as int, (size + n) as int), cfg) == Ok::<
            (ReaderModel, Option<Seq<u8>>),
            ProxyError,
        >((s2, out)),
    ensures
        ({
            let o = match out {
                Some(x) => x,
                None => Seq::empty(),
            };
            let next = run(s2, b.subrange((size + n) as int, b.len() as int), cfg);
            run(s, b, cfg) == if s2.done {
                (o, (size + n) as nat, None)
            } else {
                (o + next.0, (size + n + next.1) as nat, next.2)
            }
        }),
{
    reveal(run);
}

proof fn lemma_chunks_ignore_format(h1: ChunkHeader, h2: ChunkHeader, p: Seq<u8>, m: nat, first: bool)
    requires
        h1 == (ChunkHeader { format: h1.format, ..h2 }),
    ensures
        chunks_from(h1, p, m, first) == chunks_from(h2, p, m, first),
    decreases p.len(),
{
    if m > 0 && p.len() > 0 {
        let n = min_nat(m, p.len());
        lemma_chunks_ignore_format(h1, h2, p.subrange(n as int, p.len() as int), m, false);
        assert(ChunkHeader { format: if first { 0 } else { 3 }, ..h1 } == ChunkHeader {
            format: if first { 0 } else { 3 },
            ..h2
        });
    } else if m > 0 {
        assert(ChunkHeader { format: 0, ..h1 } == ChunkHeader { format: 0, ..h2 });
    }
}

/// The chunks of one message, from `d` bytes on, read into the reader: the
/// message is forwarded as `o` chunked at the chunk size in force, where
/// `o` is the payload, or what interception makes of it for a command, and
/// `dn` says whether that ends the interception.
#[verifier::rlimit(100)]
#[verifier::spinoff_prover]
proof fn lemma_message_chunks(
    s: ReaderModel,
    hl: ChunkHeader,
    p: Seq<u8>,
    d: nat,
    rest: Seq<u8>,
    cfg: Config,
    o: Seq<u8>,
    dn: bool,
)
    requires
        is_valid_header(hl),
        hl.length == p.len(),
        hl.type_id != SET_CHUNK_SIZE,
        hl.type_id == AMF0_COMMAND ==> intercepted(p, cfg) == Ok::<(Seq<u8>, bool), CommandError>(
            (o, dn),
        ),
        hl.type_id != AMF0_COMMAND ==> o == p && dn == s.done,
        s.max_chunk_size >= 1,
        !s.done,
        d < p.len(),
        s.received == p.subrange(0, d as int),
        d > 0 ==> s.last_header == (ChunkHeader { format: s.last_header.format, ..hl }),
    ensures
        ({
            let m = s.max_chunk_size;
            let w = chunks_from(hl, p.subrange(d as int, p.len() as int), m, d == 0);
            let after = ReaderModel {
                last_header: ChunkHeader {
                    format: if d == 0 && p.len() <= m { 0 } else { 3 },
                    ..hl
                },
                received: Seq::empty(),
                done: dn,
                ..s
            };
            let r2 = run(after, rest, cfg);
            run(s, w + rest, cfg) == if dn {
                (chunked_message(hl, o, m), w.len(), None)
            } else {
                (chunked_message(hl, o, m) + r2.0, w.len() + r2.1, r2.2)
            }
        }),
    decreases p.len() - d,
{
    let m = s.max_chunk_size;
    let len = p.len();
    let q = p.subrange(d as int, len as int);
    let n = min_nat(m, q.len());
    let hf = ChunkHeader { format: if d == 0 { 0 } else { 3 }, ..hl };
    let later = chunks_from(hl, q.subrange(n as int, q.len() as int), m, false);
    let w = chunks_from(hl, q, m, d == 0);
    let b = w + rest;
    let hb = header_bytes(hf);
    assert(b =~= hb + (q.subrange(0, n as int) + later + rest));
    lemma_header_fields_round_trip(hf, q.subrange(0, n as int) + later + rest);
    let size = hb.len();
    assert(size >= 1);
    let header = carried_fields(hf);
    assert(inherited(s.last_header, header) == hf);
    assert(chunk_plan(s, header) == Ok::<(ChunkHeader, nat), ProxyError>((hf, n)));
    assert(b.subrange(size as int, (size + n) as int) =~= p.subrange(d as int, (d + n) as int));
    let msg = s.received + p.subrange(d as int, (d + n) as int);
    assert(msg =~= p.subrange(0, (d + n) as int));
    let tail = b.subrange((size + n) as int, b.len() as int);
    assert(tail =~= later + rest);
    assert(q.subrange(n as int, q.len() as int) =~= p.subrange((d + n) as int, len as int));
    assert(size < 0x1000000) by {
        assert(hb.len() <= 18);
    }
    if d + n < len {
        let s2 = ReaderModel { last_header: hf, received: msg, ..s };
        assert(chunk_step(s, header, b.subrange(size as int, (size + n) as int), cfg) == Ok::<
            (ReaderModel, Option<Seq<u8>>),
            ProxyError,
        >((s2, None)));
        lemma_run_step(s, b, cfg, header, size, hf, n, s2, None);
        lemma_message_chunks(s2, hl, p, d + n, rest, cfg, o, dn);
        let inner = run(s2, tail, cfg);
        assert(Seq::<u8>::empty() + inner.0 =~= inner.0);
    } else {
        assert(msg =~= p);
        let s2 = ReaderModel { last_header: hf, received: Seq::empty(), done: dn, ..s };
        assert(chunk_step(s, header, b.subrange(size as int, (size + n) as int), cfg) == Ok::<
            (ReaderModel, Option<Seq<u8>>),
            ProxyError,
        >((s2, Some(chunked_message(hf, o, m)))));
        lemma_run_step(s, b, cfg, header, size, hf, n, s2, Some(chunked_message(hf, o, m)));
        lemma_chunks_ignore_format(
            ChunkHeader { length: #[verifier::truncate] (o.len() as u32), ..hf },
            ChunkHeader { length: #[verifier::truncate] (o.len() as u32), ..hl },
            o,
            m,
            true,
        );
        assert(p.subrange(len as int, len as int) =~= Seq::<u8>::empty());
        assert(later =~= Seq::<u8>::empty());
        assert(tail =~= rest);
        assert(w.len() == (size + n) as int);
    }
}

/// A message of a type that the proxy does not act on, read from the
/// chunks that `write_message` writes with the chunk size in force, is
/// forwarded as exactly those chunks, taking exactly their bytes; reading
/// then goes on after them.
pub proof fn lemma_plain_message_passes_through(
    s: ReaderModel,
    h: ChunkHeader,
    p: Seq<u8>,
    rest: Seq<u8>,
    cfg: Config,
)
    requires
        s.received.len() == 0,
        s.max_chunk_size >= 1,
        !s.done,
        is_valid_header(h),
        0 < p.len() < 0x1000000,
        h.type_id != SET_CHUNK_SIZE,
        h.type_id != AMF0_COMMAND,
    ensures
        ({
            let m = s.max_chunk_size;
            let w = chunked_message(h, p, m);
            let after = ReaderModel {
                last_header: ChunkHeader {
                    format: if p.len() <= m { 0 } else { 3 },
                    length: p.len() as u32,
                    ..h
                },
                received: Seq::empty(),
                ..s
            };
            let r2 = run(after, rest, cfg);
            run(s, w + rest, cfg) == (w + r2.0, w.len() + r2.1, r2.2)
        }),
{
    let hl = ChunkHeader { length: #[verifier::truncate] (p.len() as u32), ..h };
    assert(hl.length == p.len());
    assert(s.received =~= p.subrange(0, 0));
    assert(p.subrange(0, p.len() as int) =~= p);
    lemma_message_chunks(s, hl, p, 0, rest, cfg, p, s.done);
    assert(ChunkHeader { length: #[verifier::truncate] (p.len() as u32), ..hl } == hl);
}

/// A `connect` message and then a `publish` message, each chunked at the
/// chunk size in force: both are forwarded as interception rewrites them,
/// chunked at that size, and reading stops right after `publish`, taking
/// none of the bytes that follow.
pub proof fn lemma_connect_then_publish(
    s: ReaderModel,
    hc: ChunkHeader,
    pc: Seq<u8>,
    hp: ChunkHeader,
    pp: Seq<u8>,
    x: Seq<u8>,
    cfg: Config,
)
    requires
        s.received.len() == 0,
        s.max_chunk_size >= 1,
        !s.done,
        is_valid_header(hc),
        is_valid_header(hp),
        hc.type_id == AMF0_COMMAND,
        hp.type_id == AMF0_COMMAND,
        0 < pc.len() < 0x1000000,
        0 < pp.len() < 0x1000000,
        intercepted(pc, cfg) matches Ok((_, false)),
        intercepted(pp, cfg) matches Ok((_, true)),
    ensures
        ({
            let m = s.max_chunk_size;
            let wc = chunked_message(hc, pc, m);
            let wp = chunked_message(hp, pp, m);
            run(s, wc + wp + x, cfg) == (
                chunked_message(hc, intercepted(pc, cfg)->Ok_0.0, m) + chunked_message(
                    hp,
                    intercepted(pp, cfg)->Ok_0.0,
                    m,
                ),
                wc.len() + wp.len(),
                None::<ProxyError>,
            )
        }),
{
    let m = s.max_chunk_size;
    let oc = intercepted(pc, cfg)->Ok_0.0;
    let op = intercepted(pp, cfg)->Ok_0.0;
    let hlc = ChunkHeader { length: #[verifier::truncate] (pc.len() as u32), ..hc };
    let hlp = ChunkHeader { length: #[verifier::truncate] (pp.len() as u32), ..hp };
    assert(hlc.length == pc.len() && hlp.length == pp.len());
    let wc = chunked_message(hc, pc, m);
    let wp = chunked_message(hp, pp, m);
    assert(s.received =~= pc.subrange(0, 0));
    assert(pc.subrange(0, pc.len() as int) =~= pc);
    assert(pp.subrange(0, pp.len() as int) =~= pp);
    assert(wc + wp + x =~= wc + (wp + x));
    lemma_message_chunks(s, hlc, pc, 0, wp + x, cfg, oc, false);
    let after = ReaderModel {
        last_header: ChunkHeader { format: if pc.len() <= m { 0 } else { 3 }, ..hlc },
        received: Seq::empty(),
        done: false,
        ..s
    };
    assert(after.received =~= pp.subrange(0, 0));
    lemma_message_chunks(after, hlp, pp, 0, x, cfg, op, true);
}

/// A Set Chunk Size message in one chunk, then a message of a type that the
/// proxy does not act on, chunked at the new size: the first is forwarded
/// under the new size, the second is read in chunks of the new size and
/// forwarded as exactly its chunks.
#[verifier::rlimit(100)]
#[verifier::spinoff_prover]
pub proof fn lemma_set_chunk_size_then_message(
    s: ReaderModel,
    hs: ChunkHeader,
    v: Seq<u8>,
    h: ChunkHeader,
    p: Seq<u8>,
    rest: Seq<u8>,
    cfg: Config,
)
    requires
        s.received.len() == 0,
        s.max_chunk_size >= 4,
        !s.done,
        is_valid_header(hs),
        hs.type_id == SET_CHUNK_SIZE,
        v.len() == 4,
        be_u32(v) > 0,
        is_valid_header(h),
        0 < p.len() < 0x1000000,
        h.type_id != SET_CHUNK_SIZE,
        h.type_id != AMF0_COMMAND,
    ensures
        ({
            let m = be_u32(v) as nat;
            let set = chunked_message(hs, v, s.max_chunk_size);
            let w = chunked_message(h, p, m);
            let after = ReaderModel {
                last_header: ChunkHeader {
                    format: if p.len() <= m { 0 } else { 3 },
                    length: p.len() as u32,
                    ..h
                },
                received: Seq::empty(),
                max_chunk_size: m,
                ..s
            };
            let r2 = run(after, rest, cfg);
            run(s, set + w + rest, cfg) == (
                chunked_message(hs, v, m) + w + r2.0,
                set.len() + w.len() + r2.1,
                r2.2,
            )
        }),
{
    let m0 = s.max_chunk_size;
    let m = be_u32(v) as nat;
    let hl = ChunkHeader { length: 4, ..hs };
    let hf = ChunkHeader { format: 0, ..hl };
    let set = chunked_message(hs, v, m0);
    let w = chunked_message(h, p, m);
    let b = set + w + rest;
    let hb = header_bytes(hf);
    assert(v.subrange(0, 4) =~= v);
    assert(v.subrange(4, 4) =~= Seq::<u8>::empty());
    assert(ChunkHeader { length: #[verifier::truncate] (v.len() as u32), ..hs } == hl);
    assert(min_nat(m0, 4) == 4);
    assert(chunks_from(hl, v.subrange(4, 4), m0, false) == Seq::<u8>::empty());
    assert(ChunkHeader { format: 0, ..hl } == hf);
    assert(set =~= hb + v);
    assert(b =~= hb + (v + w + rest));
    lemma_header_fields_round_trip(hf, v + w + rest);
    let size = hb.len();
    assert(size < 0x1000000) by {
        assert(hb.len() <= 18);
    }
    let header = carried_fields(hf);
    assert(inherited(s.last_header, header) == hf);
    assert(chunk_plan(s, header) == Ok::<(ChunkHeader, nat), ProxyError>((hf, 4)));
    assert(b.subrange(size as int, (size + 4) as int) =~= v);
    assert(s.received + v =~= v);
    let s2 = ReaderModel { last_header: hf, max_chunk_size: m, received: Seq::empty(), ..s };
    assert(chunk_step(s, header, b.subrange(size as int, (size + 4) as int), cfg) == Ok::<
        (ReaderModel, Option<Seq<u8>>),
        ProxyError,
    >((s2, Some(chunked_message(hf, v, m)))));
    lemma_run_step(s, b, cfg, header, size, hf, 4, s2, Some(chunked_message(hf, v, m)));
    assert(b.subrange((size + 4) as int, b.len() as int) =~= w + rest);
    lemma_plain_message_passes_through(s2, h, p, rest, cfg);
    lemma_chunks_ignore_format(
        ChunkHeader { length: 4, ..hf },
        ChunkHeader { length: 4, ..hs },
        v,
        m,
        true,
    );
    let r2 = run(
        ReaderModel {
            last_header: ChunkHeader {
                format: if p.len() <= m { 0 } else { 3 },
                length: p.len() as u32,
                ..h
            },
            received: Seq::empty(),
            ..s2
        },
        rest,
        cfg,
    );
    assert(chunked_message(hs, v, m) + (w + r2.0) =~= chunked_message(hs, v, m) + w + r2.0);
}

/// What reading a client's chunks came to.
pub struct Interception {
    /// The chunks of every message completed, rewritten where they were
    /// commands, for the server.
    pub forwarded: Vec<u8>,
    /// How many input bytes the chunks read took.
    pub consumed: usize,
    /// What stopped the reading, or `None` once `publish` was intercepted.
    pub error: Option<ProxyError>,
}

/// Reads the chunks that a client sends after the handshake, until the
/// `publish` command has been intercepted or the reading fails. Every
/// message completed before that is handed out, for the server, in place
/// of the input bytes that its chunks took; what follows `publish` is
/// relayed as it is.
pub fn hijack(input: &[u8], config: &Config) -> (r: Interception)
    requires
        config_writable(*config),
    ensures
        (r.forwarded@, r.consumed as nat, r.error) == run(initial_reader(), input@, *config),
{
    reveal(run);
    let len = input.len();
    let mut reader = ChunkReader::new();
    let mut out: Vec<u8> = Vec::new();
    let mut pos: usize = 0;
    assert(input@.subrange(0, len as int) =~= input@);
    assert(Seq::<u8>::empty() + run(initial_reader(), input@, *config).0 =~= run(
        initial_reader(),
        input@,
        *config,
    ).0);
    loop
        invariant
            len == input@.len(),
            pos <= len,
            reader.wf(),
            !reader@.done,
            config_writable(*config),
            ({
                let rest = run(reader@, input@.subrange(pos as int, len as int), *config);
                run(initial_reader(), input@, *config) == (out@ + rest.0, (pos + rest.1) as nat, rest.2)
            }),
        decreases len - pos,
    {
        reveal(run);
        let ghost b = input@.subrange(pos as int, len as int);
        assert(out@ + Seq::<u8>::empty() =~= out@);
        let rest = slice_subrange(input, pos, len);
        let (header, size) = match read_header(rest) {
            HeaderRead::Complete { header, size } => (header, size),
            HeaderRead::Incomplete { .. } => {
                return Interception { forwarded: out, consumed: pos, error: Some(ProxyError::Truncated) };
            },
        };
        let n = match reader.body_len(header) {
            Ok(n) => n,
            Err(e) => return Interception { forwarded: out, consumed: pos, error: Some(e) },
        };
        if len - pos - size < n {
            return Interception { forwarded: out, consumed: pos, error: Some(ProxyError::Truncated) };
        }
        let body = slice_subrange(input, pos + size, pos + size + n);
        assert(body@ =~= b.subrange(size as int, (size + n) as int));
        let ghost used = (size + n) as int;
        let step = reader.accept_chunk(header, body, config);
        let chunk_out = match step {
            Ok(o) => o,
            Err(e) => return Interception { forwarded: out, consumed: pos, error: Some(e) },
        };
        let ghost before = out@;
        let ghost o = match bytes_of(chunk_out) {
            Some(x) => x,
            None => Seq::<u8>::empty(),
        };
        match chunk_out {
            Some(mut v) => out.append(&mut v),
            None => {},
        }
        assert(b.subrange(used, b.len() as int) =~= input@.subrange(pos + used, len as int));
        pos = pos + size + n;
        if reader.is_done() {
            return Interception { forwarded: out, consumed: pos, error: None };
        }
        assert forall|o2: Seq<u8>| #[trigger] (before + (o + o2)) == out@ + o2 by {
            assert(before + (o + o2) =~= out@ + o2);
        }
    }
}

} // verus!
