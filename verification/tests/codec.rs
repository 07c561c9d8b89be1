use serde_json::Value;
use std::time::Duration;
use zrb::protocol::codec::{
    after_chunk, decode_json, encode_json, make_frame, parse_frame, read_exact_or_eof, read_stream,
    read_stream_with_cancel, throttle_pause, write_stream, AfterChunk, ClientHello, ClientReady,
    CodecError, ServerHello, ServerStatus, StreamWriter, CHUNK_SIZE,
};

fn text(s: &str) -> Value {
    Value::String(s.to_string())
}

fn optional(s: &Option<String>) -> Value {
    match s {
        Some(s) => text(s),
        None => Value::Null,
    }
}

fn string_of(v: &Value, key: &str) -> String {
    v[key].as_str().unwrap().to_string()
}

/// Puts a value on a line and takes it off again.
fn over_the_wire(entries: Vec<(&str, Value)>) -> Value {
    let mut map = serde_json::Map::new();
    for (k, v) in entries {
        map.insert(k.to_string(), v);
    }
    let json = serde_json::to_vec(&Value::Object(map)).unwrap();
    let wire = encode_json(json.clone());
    assert_eq!(wire.last(), Some(&b'\n'));
    assert_eq!(wire.len(), json.len() + 1);
    let line = String::from_utf8(wire).unwrap();
    let back = decode_json(&line).unwrap();
    assert_eq!(back.as_bytes(), &json[..]);
    serde_json::from_str(&back).unwrap()
}

fn ready_round_trip(msg: &ClientReady) -> ClientReady {
    let v = over_the_wire(vec![
        ("ok", Value::Bool(msg.ok)),
        ("message", text(&msg.message)),
    ]);
    ClientReady {
        ok: v["ok"].as_bool().unwrap(),
        message: string_of(&v, "message"),
    }
}

fn hello_round_trip(msg: &ServerHello) -> ServerHello {
    let v = over_the_wire(vec![
        ("version", text(&msg.version)),
        ("head", optional(&msg.head)),
        ("resume_token", optional(&msg.resume_token)),
    ]);
    ServerHello {
        version: string_of(&v, "version"),
        head: v["head"].as_str().map(str::to_string),
        resume_token: v["resume_token"].as_str().map(str::to_string),
    }
}

#[test]
fn client_ready_ok_round_trip() {
    let msg = ClientReady {
        ok: true,
        message: "ok".to_string(),
    };
    assert_eq!(ready_round_trip(&msg), msg);
}

#[test]
fn client_ready_not_ok_round_trip() {
    let msg = ClientReady {
        ok: false,
        message: "newest snapshot already on server".to_string(),
    };
    assert_eq!(ready_round_trip(&msg), msg);
}

#[test]
fn server_hello_round_trip() {
    let msg = ServerHello {
        version: "0.1.0".to_string(),
        head: Some("tank/home@zrb-2026-05-22T14:30:00Z".to_string()),
        resume_token: Some("opaque-token".to_string()),
    };
    assert_eq!(hello_round_trip(&msg), msg);
}

#[test]
fn server_hello_no_resume_token() {
    let msg = ServerHello {
        version: "0.1.0".to_string(),
        head: None,
        resume_token: None,
    };
    assert_eq!(hello_round_trip(&msg), msg);
}

#[test]
fn client_hello_round_trip() {
    let msg = ClientHello {
        version: "0.1.0".to_string(),
        client_name: "my-laptop".to_string(),
        target: "backup/laptop/home".to_string(),
    };
    let v = over_the_wire(vec![
        ("version", text(&msg.version)),
        ("client_name", text(&msg.client_name)),
        ("target", text(&msg.target)),
    ]);
    let decoded = ClientHello {
        version: string_of(&v, "version"),
        client_name: string_of(&v, "client_name"),
        target: string_of(&v, "target"),
    };
    assert_eq!(decoded, msg);
}

#[test]
fn server_status_failure_round_trip() {
    let msg = ServerStatus {
        ok: false,
        message: "dataset not allowed".to_string(),
    };
    let v = over_the_wire(vec![
        ("ok", Value::Bool(msg.ok)),
        ("message", text(&msg.message)),
    ]);
    let decoded = ServerStatus {
        ok: v["ok"].as_bool().unwrap(),
        message: string_of(&v, "message"),
    };
    assert_eq!(decoded, msg);
}

#[test]
fn end_of_input_is_an_error() {
    assert_eq!(
        decode_json(""),
        Err(CodecError::Io("connection closed mid-message".to_string()))
    );
    assert_eq!(decode_json("{}"), Ok("{}".to_string()));
    assert_eq!(decode_json("\n"), Ok(String::new()));
    assert_eq!(decode_json("{}\n\n"), Ok("{}".to_string()));
    assert_eq!(decode_json("{}\r\n"), Ok("{}\r".to_string()));
}

#[test]
fn codec_errors_have_texts() {
    assert_eq!(CodecError::Io("gone".to_string()).message(), "I/O error: gone");
    assert_eq!(CodecError::Json("bad".to_string()).message(), "JSON error: bad");
    assert_eq!(CodecError::Cancelled.message(), "transfer cancelled");
}

#[test]
fn stream_round_trip_arbitrary_bytes() {
    let original: Vec<u8> = (0u8..=255).cycle().take(2_500_000).collect();
    let (wire, _) = write_stream(&original, 0);
    let recovered = read_stream(&wire).unwrap();
    assert_eq!(recovered, original);
}

#[test]
fn exactly_one_chunk_control_frame() {
    let data = vec![0xABu8; CHUNK_SIZE];
    let (wire, _) = write_stream(&data, 0);

    assert_eq!(wire.len(), CHUNK_SIZE + 5);
    let actual_size = u32::from_be_bytes([
        wire[CHUNK_SIZE],
        wire[CHUNK_SIZE + 1],
        wire[CHUNK_SIZE + 2],
        wire[CHUNK_SIZE + 3],
    ]);
    let has_more = wire[CHUNK_SIZE + 4];
    assert_eq!(actual_size as usize, CHUNK_SIZE);
    assert_eq!(has_more, 0);
}

#[test]
fn partial_chunk_zero_padded_correct_actual_size() {
    let data = vec![0xFFu8; 42];
    let (wire, _) = write_stream(&data, 0);

    assert_eq!(wire.len(), CHUNK_SIZE + 5);
    assert!(wire[42..CHUNK_SIZE].iter().all(|&b| b == 0));
    let actual_size = u32::from_be_bytes([
        wire[CHUNK_SIZE],
        wire[CHUNK_SIZE + 1],
        wire[CHUNK_SIZE + 2],
        wire[CHUNK_SIZE + 3],
    ]);
    assert_eq!(actual_size, 42);
    assert_eq!(wire[CHUNK_SIZE + 4], 0);
}

#[test]
fn progress_callback_receives_cumulative_bytes_and_total() {
    let data: Vec<u8> = (0u8..=255).cycle().take(CHUNK_SIZE + 512).collect();
    let total = data.len() as u64;
    let (_, calls) = write_stream(&data, total);
    assert_eq!(calls.len(), 2);
    assert_eq!(calls[0], (CHUNK_SIZE as u64, total));
    assert_eq!(calls[1], (total, total));
}

#[test]
fn read_stream_with_cancel_false_completes_normally() {
    let original: Vec<u8> = (0u8..=255).cycle().take(2_500_000).collect();
    let (wire, _) = write_stream(&original, 0);
    let (recovered, cancelled) = read_stream_with_cancel(&wire, false).unwrap();
    assert!(!cancelled, "cancel=false should return Ok(false)");
    assert_eq!(recovered, original);
}

#[test]
fn read_stream_with_cancel_true_stops_early() {
    let data: Vec<u8> = (0u8..=255).cycle().take(CHUNK_SIZE * 3).collect();
    let (wire, _) = write_stream(&data, 0);
    let (recovered, cancelled) = read_stream_with_cancel(&wire, true).unwrap();
    assert!(cancelled, "cancel=true should return Ok(true)");
    assert_eq!(recovered.len(), CHUNK_SIZE);
}

#[test]
fn cancel_does_not_undo_a_complete_stream() {
    let (wire, _) = write_stream(&[1, 2, 3], 0);
    assert_eq!(
        read_stream_with_cancel(&wire, true).unwrap(),
        (vec![1, 2, 3], false)
    );
    assert_eq!(after_chunk(false, true), AfterChunk::Done);
    assert_eq!(after_chunk(true, true), AfterChunk::Cancelled);
    assert_eq!(after_chunk(true, false), AfterChunk::More);
}

#[test]
fn progress_none_is_zero_overhead() {
    let data = vec![1u8; 100];
    let (out, _) = write_stream(&data, 0);
    let recovered = read_stream(&out).unwrap();
    assert_eq!(recovered, data);
}

#[test]
fn throttled_write_respects_rate_limit() {
    // 50 KiB at 100 KiB/s should take >= ~0.5 s
    let data = vec![0u8; 50 * 1024];
    let rate: u64 = 100 * 1024;
    let (_, calls) = write_stream(&data, 0);
    let pause = throttle_pause(calls[0].0, rate, 0).unwrap();
    assert!(
        pause >= 450_000_000,
        "throttled write completed too fast: {pause}"
    );
    assert_eq!(pause, 500_000_000);
}

#[test]
fn throttle_rounds_to_the_nanosecond_and_never_goes_back() {
    assert_eq!(throttle_pause(1, 3, 0), Some(333_333_333));
    assert_eq!(throttle_pause(2, 3, 0), Some(666_666_667));
    assert_eq!(throttle_pause(1, 3, 333_333_333), Some(0));
    assert_eq!(throttle_pause(1, 3, 333_333_334), None);
    assert_eq!(throttle_pause(0, 3, 0), Some(0));
}

#[test]
fn throttle_agrees_with_machine_arithmetic() {
    let agree = |bytes: u64, rate: u64| {
        let expected = Duration::from_secs_f64(bytes as f64 / rate as f64).as_nanos();
        assert_eq!(throttle_pause(bytes, rate, 0), Some(expected), "{bytes} {rate}");
    };
    agree(0xffff_ffff_ffff_fbff, 1);
    agree(u64::MAX, 2);
    agree(1, u64::MAX);
    agree(0, 1);
    let mut seed: u64 = 3;
    for i in 0..20_000u64 {
        seed = seed.wrapping_mul(6364136223846793005).wrapping_add(1442695040888963407);
        let bytes = (seed >> 1) >> (i % 63);
        seed = seed.wrapping_mul(6364136223846793005).wrapping_add(1442695040888963407);
        agree(bytes, (seed >> (i / 63 % 63)).max(1));
    }
}

#[test]
fn throttle_keeps_the_average_below_the_limit() {
    for (bytes, rate) in [(1u64, 3u64), (4 << 20, 125_000), (1 << 60, (1 << 30) + 1)] {
        let pause = throttle_pause(bytes, rate, 0).unwrap();
        assert!(bytes as u128 * 1_000_000_000 <= rate as u128 * (pause + 1_000_000));
    }
}

#[test]
fn multi_chunk_has_more_flags() {
    let data: Vec<u8> = (0u8..255).cycle().take(CHUNK_SIZE * 2 + 512).collect();
    let (wire, _) = write_stream(&data, 0);

    let frame_start = |chunk_idx: usize| CHUNK_SIZE * (chunk_idx + 1) + 5 * chunk_idx;
    assert_eq!(wire[frame_start(0) + 4], 1, "chunk 0 has_more");
    assert_eq!(wire[frame_start(1) + 4], 1, "chunk 1 has_more");
    assert_eq!(wire[frame_start(2) + 4], 0, "chunk 2 has_more");
}

#[test]
fn empty_stream_is_one_empty_chunk() {
    let (wire, calls) = write_stream(&[], 7);
    assert_eq!(wire.len(), CHUNK_SIZE + 5);
    assert_eq!(calls, vec![(0, 7)]);
    assert_eq!(read_stream(&wire), Ok(Vec::new()));
}

#[test]
fn truncated_stream_is_an_error() {
    let data = vec![9u8; CHUNK_SIZE + 1];
    let (wire, _) = write_stream(&data, 0);
    assert_eq!(
        read_stream(&wire[..wire.len() - 1]),
        Err(CodecError::Io("early eof".to_string()))
    );
    assert_eq!(
        read_stream_with_cancel(&wire[..10], true),
        Err(CodecError::Io("early eof".to_string()))
    );
}

#[test]
fn reading_stops_at_the_end_of_the_stream() {
    let (mut wire, _) = write_stream(&[5, 6], 0);
    wire.extend_from_slice(b"{\"ok\":true}\n");
    assert_eq!(read_stream(&wire), Ok(vec![5, 6]));
}

#[test]
fn frames_are_big_endian() {
    assert_eq!(make_frame(0x0102_0304, true), [1, 2, 3, 4, 1]);
    assert_eq!(make_frame(u32::MAX, false), [255, 255, 255, 255, 0]);
    assert_eq!(parse_frame(&[1, 2, 3, 4, 1]), (0x0102_0304, true));
    assert_eq!(parse_frame(&[0, 64, 0, 0, 0]), (CHUNK_SIZE as u32, false));
    assert_eq!(parse_frame(&[0, 0, 0, 0, 7]), (0, true));
}

#[test]
fn short_reads_fill_a_chunk() {
    let mut chunk = Vec::new();
    assert!(!read_exact_or_eof(&mut chunk, &[1, 2]));
    assert!(!read_exact_or_eof(&mut chunk, &[3]));
    assert!(read_exact_or_eof(&mut chunk, &[]));
    assert_eq!(chunk, vec![1, 2, 3]);
    let rest = vec![0u8; CHUNK_SIZE - 3];
    assert!(read_exact_or_eof(&mut chunk, &rest));
}

#[test]
fn short_pieces_in_the_middle_survive() {
    let mut writer = StreamWriter::new(vec![1, 2]);
    let mut wire = Vec::new();
    let (out, more) = writer.next_block(vec![3]);
    assert!(more);
    wire.extend_from_slice(&out);
    let (out, more) = writer.next_block(Vec::new());
    assert!(!more);
    wire.extend_from_slice(&out);
    assert_eq!(writer.bytes_sent, 3);
    assert_eq!(read_stream(&wire), Ok(vec![1, 2, 3]));
}
