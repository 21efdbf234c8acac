use amf::amf0::Value;
use amf::Pair;
use rtmpproxy::chunk::write_message;
use rtmpproxy::command::{hijack_command_message, CommandError};
use rtmpproxy::config::Config;
use rtmpproxy::header::ChunkHeader;
use rtmpproxy::reassembly::{hijack, ChunkReader, ProxyError};

fn config() -> Config {
    Config {
        listen: "0.0.0.0:1935".to_string(),
        server: "real:1935".to_string(),
        play_url: "rtmp://real/live".to_string(),
        app_name: "live".to_string(),
        stream_name: "?key=abc".to_string(),
    }
}

fn text(s: &str) -> Value {
    Value::String(s.to_string())
}

fn encode(values: &[Value]) -> Vec<u8> {
    let mut out = Vec::new();
    for v in values {
        v.write_to(&mut out).unwrap();
    }
    out
}

fn decode(bytes: &[u8]) -> Vec<Value> {
    let mut cursor = std::io::Cursor::new(bytes);
    let mut dec = amf::amf0::Decoder::new(&mut cursor);
    let mut values = Vec::new();
    while let Ok(v) = dec.decode() {
        values.push(v);
    }
    values
}

fn object(entries: &[(&str, &str)]) -> Value {
    Value::Object {
        class_name: None,
        entries: entries.iter().map(|(k, v)| Pair { key: k.to_string(), value: text(v) }).collect(),
    }
}

fn connect_payload() -> Vec<u8> {
    encode(&[
        text("connect"),
        Value::Number(1.0),
        object(&[("app", "x"), ("tcUrl", "rtmp://x/x"), ("swfUrl", "s"), ("flashVer", "FMLE/3.0")]),
    ])
}

fn publish_payload() -> Vec<u8> {
    encode(&[text("publish"), Value::Number(5.0), Value::Null, text("mystream"), text("live")])
}

fn chunks(cs_id: u32, type_id: u32, chunk_size: usize, payload: &[u8]) -> Vec<u8> {
    let mut h = ChunkHeader { format: 0, cs_id, timestamp: 0, length: 0, type_id, stream_id: 0 };
    write_message(chunk_size, &mut h, payload)
}

#[test]
fn connect_rewrites_app_and_urls() {
    let mut payload = connect_payload();
    assert_eq!(hijack_command_message(&mut payload, &config()), Ok(false));
    assert_eq!(
        decode(&payload),
        vec![
            text("connect"),
            Value::Number(1.0),
            object(&[
                ("app", "live"),
                ("tcUrl", "rtmp://real/live"),
                ("swfUrl", "rtmp://real/live"),
                ("flashVer", "FMLE/3.0"),
            ]),
        ]
    );
}

#[test]
fn publish_rewrites_stream_and_completes() {
    let mut payload = encode(&[text("publish"), Value::Number(5.0), text("mystream")]);
    assert_eq!(hijack_command_message(&mut payload, &config()), Ok(true));
    assert_eq!(decode(&payload), vec![text("publish"), Value::Number(5.0), text("?key=abc")]);
}

#[test]
fn release_and_fcpublish_rewrite_first_argument() {
    for name in ["releaseStream", "FCPublish"] {
        let mut payload = encode(&[text(name), Value::Number(2.0), text("mystream"), Value::Boolean(true)]);
        assert_eq!(hijack_command_message(&mut payload, &config()), Ok(false));
        assert_eq!(
            decode(&payload),
            vec![text(name), Value::Number(2.0), text("?key=abc"), Value::Boolean(true)]
        );
    }
}

#[test]
fn transaction_id_is_kept_exactly() {
    let mut payload = encode(&[text("FCPublish"), Value::Number(0.1 + 0.2), text("s")]);
    assert_eq!(hijack_command_message(&mut payload, &config()), Ok(false));
    match &decode(&payload)[1] {
        Value::Number(n) => assert_eq!(n.to_bits(), (0.1f64 + 0.2).to_bits()),
        other => panic!("unexpected {:?}", other),
    }
}

#[test]
fn other_commands_are_left_alone() {
    let original = encode(&[text("pause"), Value::Number(3.0), Value::Null, Value::Boolean(true)]);
    let mut payload = original.clone();
    assert_eq!(hijack_command_message(&mut payload, &config()), Ok(false));
    assert_eq!(payload, original);
}

#[test]
fn command_errors() {
    let cfg = config();
    let mut p = encode(&[Value::Number(1.0)]);
    assert_eq!(hijack_command_message(&mut p, &cfg), Err(CommandError::NameNotString));
    let mut p = encode(&[text("connect"), text("1")]);
    assert_eq!(hijack_command_message(&mut p, &cfg), Err(CommandError::TransactionIdNotNumber));
    let mut p = encode(&[text("connect"), Value::Number(1.0), text("app")]);
    assert_eq!(hijack_command_message(&mut p, &cfg), Err(CommandError::ConnectArgNotObject));
    let mut p = encode(&[text("publish"), Value::Number(1.0)]);
    assert_eq!(hijack_command_message(&mut p, &cfg), Err(CommandError::MissingArgument));
    let mut p = Vec::new();
    assert_eq!(hijack_command_message(&mut p, &cfg), Err(CommandError::Malformed));
    let mut p = encode(&[text("pause"), Value::Number(1.0)]);
    p.push(0x0d);
    let before = p.clone();
    assert_eq!(hijack_command_message(&mut p, &cfg), Err(CommandError::Malformed));
    assert_eq!(p, before);
}

#[test]
fn chunking_and_reassembly_give_the_payload_back() {
    let cfg = config();
    for &(len, m) in &[(0usize, 1usize), (1, 1), (5, 1), (127, 128), (128, 128), (129, 128), (1000, 7), (300, 4096)] {
        let payload: Vec<u8> = (0..len).map(|i| (i * 31 % 251) as u8).collect();
        let wire = chunks(3, 9, m, &payload);
        let mut reader = ChunkReader::new();
        if m != 128 {
            let set = chunks(2, 1, 128, &(m as u32).to_be_bytes());
            hijack_prefix(&mut reader, &set, &cfg);
            assert_eq!(reader.max_chunk_size(), m);
        }
        assert_eq!(hijack_prefix(&mut reader, &wire, &cfg), wire);
    }
}

fn hijack_prefix(reader: &mut ChunkReader, wire: &[u8], cfg: &Config) -> Vec<u8> {
    let mut pos = 0;
    let mut out = Vec::new();
    while pos < wire.len() {
        let (header, size) = match rtmpproxy::header::read_header(&wire[pos..]) {
            rtmpproxy::header::HeaderRead::Complete { header, size } => (header, size),
            other => panic!("unexpected {:?}", other),
        };
        let n = reader.body_len(header).unwrap();
        let body = &wire[pos + size..pos + size + n];
        if let Some(bytes) = reader.accept_chunk(header, body, cfg).unwrap() {
            out.extend_from_slice(&bytes);
        }
        pos += size + n;
    }
    out
}

#[test]
fn set_chunk_size_changes_outgoing_split() {
    let cfg = config();
    let mut reader = ChunkReader::new();
    let set = chunks(2, 1, 128, &[0x00, 0x00, 0x10, 0x00]);
    let forwarded = hijack_prefix(&mut reader, &set, &cfg);
    assert_eq!(reader.max_chunk_size(), 4096);
    assert_eq!(forwarded, set);
    let payload = vec![7u8; 5000];
    let wire = chunks(3, 9, 4096, &payload);
    let out = hijack_prefix(&mut reader, &wire, &cfg);
    // one 12-byte header, 4096 bytes, one 1-byte header, 904 bytes
    assert_eq!(out.len(), 12 + 4096 + 1 + 904);
    assert_eq!(out[12 + 4096], 0xc3);
    assert_eq!(out, wire);
}

#[test]
fn connect_then_publish_end_to_end() {
    let cfg = config();
    let mut input = chunks(3, 20, 128, &connect_payload());
    input.extend(chunks(3, 20, 128, &publish_payload()));
    let consumed = input.len();
    input.extend_from_slice(&[0xde, 0xad, 0xbe, 0xef]);
    let r = hijack(&input, &cfg);
    assert_eq!(r.error, None);
    let (out, used) = (r.forwarded, r.consumed);
    assert_eq!(used, consumed);
    let mut connect = connect_payload();
    assert_eq!(hijack_command_message(&mut connect, &cfg), Ok(false));
    let mut publish = publish_payload();
    assert_eq!(hijack_command_message(&mut publish, &cfg), Ok(true));
    let mut expected = chunks(3, 20, 128, &connect);
    expected.extend(chunks(3, 20, 128, &publish));
    assert_eq!(out, expected);
    assert_eq!(
        decode(&publish),
        vec![text("publish"), Value::Number(5.0), text("?key=abc"), text("mystream"), text("live")]
    );
    assert_eq!(&input[used..], &[0xde, 0xad, 0xbe, 0xef]);
}

#[test]
fn malformed_selector_with_short_read_fails() {
    // selector 1 announces two id bytes and a full header, but the input ends
    let r = hijack(&[0x01, 0x00], &config());
    assert_eq!(r.error, Some(ProxyError::Truncated));
    assert_eq!(r.forwarded, Vec::<u8>::new());
    assert_eq!(r.consumed, 0);
    assert_eq!(hijack(&[], &config()).error, Some(ProxyError::Truncated));
}

#[test]
fn reader_errors() {
    let cfg = config();
    // a message of 300 bytes, then a chunk of another chunk stream
    let wire = chunks(3, 9, 128, &vec![1u8; 300]);
    let mut reader = ChunkReader::new();
    let first = ChunkHeader { format: 0, cs_id: 3, timestamp: 0, length: 300, type_id: 9, stream_id: 0 };
    assert_eq!(reader.body_len(first), Ok(128));
    assert_eq!(reader.accept_chunk(first, &wire[12..140], &cfg), Ok(None));
    let other = ChunkHeader { format: 3, cs_id: 4, timestamp: 0, length: 0, type_id: 0, stream_id: 0 };
    assert_eq!(reader.body_len(other), Err(ProxyError::InterleavedChunkStream));
    let longer = ChunkHeader { format: 1, cs_id: 3, timestamp: 0, length: 400, type_id: 9, stream_id: 0 };
    assert_eq!(reader.body_len(longer), Err(ProxyError::MessageLengthChanged));

    let zero = chunks(2, 1, 128, &[0, 0, 0, 0]);
    assert_eq!(hijack(&zero, &cfg).error, Some(ProxyError::ZeroChunkSize));
    let short = chunks(2, 1, 128, &[0, 0, 1]);
    assert_eq!(hijack(&short, &cfg).error, Some(ProxyError::BadChunkSizePayload));
    let bad = chunks(3, 20, 128, &encode(&[Value::Number(1.0)]));
    assert_eq!(hijack(&bad, &cfg).error, Some(ProxyError::Command(CommandError::NameNotString)));
}

#[test]
fn format3_continuation_inherits_fields() {
    let cfg = config();
    let mut reader = ChunkReader::new();
    let first = ChunkHeader { format: 0, cs_id: 5, timestamp: 77, length: 3, type_id: 9, stream_id: 1 };
    assert_eq!(reader.body_len(first), Ok(3));
    let out = reader.accept_chunk(first, &[1, 2, 3], &cfg).unwrap().unwrap();
    let next = ChunkHeader { format: 3, cs_id: 5, timestamp: 0, length: 0, type_id: 0, stream_id: 0 };
    assert_eq!(reader.body_len(next), Ok(3));
    let again = reader.accept_chunk(next, &[1, 2, 3], &cfg).unwrap().unwrap();
    assert_eq!(out, again);
    assert_eq!(out, vec![0x05, 0, 0, 77, 0, 0, 3, 9, 1, 0, 0, 0, 1, 2, 3]);
}

#[test]
fn completed_messages_are_handed_out_before_the_input_ends() {
    let cfg = config();
    let set = chunks(2, 1, 128, &[0x00, 0x00, 0x10, 0x00]);
    let big = chunks(2, 8, 4096, &vec![7u8; 5000]);
    let mut input = set.clone();
    input.extend_from_slice(&big);
    let r = hijack(&input, &cfg);
    assert_eq!(r.error, Some(ProxyError::Truncated));
    assert_eq!(r.consumed, input.len());
    assert_eq!(r.forwarded, input);
    assert_eq!(big[12 + 4096], 0xc2);
}

#[test]
fn empty_message_is_forwarded_as_one_header() {
    let mut h = ChunkHeader { format: 3, cs_id: 3, timestamp: 9, length: 55, type_id: 9, stream_id: 1 };
    let out = write_message(128, &mut h, &[]);
    assert_eq!(out, vec![0x03, 0, 0, 9, 0, 0, 0, 9, 1, 0, 0, 0]);
    assert_eq!(h.format, 0);
    assert_eq!(h.length, 0);
    let mut reader = ChunkReader::new();
    assert_eq!(hijack_prefix(&mut reader, &out, &config()), out);
}

#[test]
fn cut_off_trailing_argument_is_malformed() {
    let mut p = encode(&[text("publish"), Value::Number(1.0), text("mystream")]);
    p.extend_from_slice(&[0x02, 0x00, 0x05, b'a']);
    let before = p.clone();
    assert_eq!(hijack_command_message(&mut p, &config()), Err(CommandError::Malformed));
    assert_eq!(p, before);
}

#[test]
fn config_string_limits() {
    assert!(config().is_writable());
}
