use phl::sessions::codec::{
    decode as decode_gen, detect_encoding, generation_filename, generation_of_filename,
    header_frame_is_alone, inherited_event_count, rewrite_header_line, split_frames, CodecError,
    DecodedLog, LogEncoding, Reidentification, HEADER_FORK_MAX_GENERATION,
    MAX_READABLE_GENERATION,
};
use phl::sessions::copy::{
    check_staged_copy, copy_refusal, encoding_conflict, encoding_of_name, home_encoding, prepare_copy,
    resolve_generation, sanitize_session_dir, session_id_from_bytes, unsupported_copy_reason,
};
use phl::sessions::{
    external_target_refusal, fan_out_selection, info_from, self_target_refusal, sort_sessions,
    SessionInfo,
};
use serde_json::Value;

const ZSTD_MAGIC: [u8; 4] = [0x28, 0xB5, 0x2F, 0xFD];

fn num(n: u64) -> Value {
    Value::from(n)
}

fn text(s: &str) -> Value {
    Value::from(s)
}

fn object(pairs: Vec<(&str, Value)>) -> Value {
    let mut m = serde_json::Map::new();
    for (k, v) in pairs {
        m.insert(k.to_string(), v);
    }
    Value::Object(m)
}

fn header_line_v(version: u64, id: &str, extra: Vec<(&str, Value)>) -> String {
    let mut m = serde_json::Map::new();
    m.insert("type".into(), text("session"));
    m.insert("version".into(), num(version));
    m.insert("id".into(), text(id));
    m.insert("createdAt".into(), num(1_700_000_000_000));
    m.insert("cwd".into(), text("D:\\work\\proj"));
    if version > HEADER_FORK_MAX_GENERATION {
        m.insert("isSeeded".into(), Value::Bool(false));
    }
    m.insert("delegationDepth".into(), num(0));
    for (k, v) in extra {
        m.insert(k.to_string(), v);
    }
    serde_json::to_string(&Value::Object(m)).unwrap()
}

fn header_line(id: &str, extra: Vec<(&str, Value)>) -> String {
    header_line_v(0, id, extra)
}

fn event_line(seq: u64) -> String {
    object(vec![
        ("type", text("user/message")),
        ("seq", num(seq)),
        ("data", object(vec![("text", text(&format!("m{seq}")))])),
    ])
    .to_string()
}

fn packed_event_line(seq0: u64, texts: &[&str]) -> String {
    let dt: Vec<Value> = (0..texts.len().saturating_sub(1)).map(|_| num(1)).collect();
    let ts: Vec<Value> = texts.iter().map(|t| text(t)).collect();
    object(vec![
        ("type", text("text-chunks")),
        ("seq0", num(seq0)),
        ("time0", num(1_700_000_000_000)),
        (
            "data",
            object(vec![
                ("turn", num(0)),
                ("step", num(0)),
                ("index", num(0)),
                ("dt", Value::Array(dt)),
                ("texts", Value::Array(ts)),
            ]),
        ),
    ])
    .to_string()
}

fn zstd_all(lines: &[&str]) -> Vec<u8> {
    let joined = lines.join("\n") + "\n";
    zstd::encode_all(joined.as_bytes(), 3).unwrap()
}

fn multi_frame(frames: &[Vec<String>]) -> Vec<u8> {
    let mut out = Vec::new();
    for f in frames {
        let joined = f.iter().map(|l| format!("{l}\n")).collect::<String>();
        out.extend(zstd::encode_all(joined.as_bytes(), 3).unwrap());
    }
    out
}

fn decode(buf: &[u8]) -> Result<DecodedLog, CodecError> {
    decode_gen(buf, 0)
}

fn assert_header_only_first_frame(bytes: &[u8]) {
    assert!(
        header_frame_is_alone(bytes).is_ok(),
        "first frame must hold exactly one newline-terminated header line"
    );
}

fn reid(new_id: &str, parent: &str, inherited: usize) -> Reidentification {
    Reidentification {
        new_id: new_id.to_string(),
        parent: parent.to_string(),
        inherited,
    }
}

fn parsed(line: &str) -> Value {
    serde_json::from_str(line).unwrap()
}

#[test]
fn publish_gate_rejects_a_single_frame_log() {
    let header = header_line("session-m", vec![]);
    let single_frame = zstd_all(&[&header, &event_line(0)]);
    assert!(
        header_frame_is_alone(&single_frame).is_err(),
        "a log whose first frame also carries events must be rejected"
    );
    let framed = multi_frame(&[vec![header], vec![event_line(0)]]);
    assert!(header_frame_is_alone(&framed).is_ok());

    let plain = format!(
        "{}\n{}\n",
        header_line("session-n", vec![]),
        event_line(0)
    );
    assert!(header_frame_is_alone(plain.as_bytes()).is_ok());
}

#[test]
fn decodes_plaintext_and_reports_encoding_and_event_count() {
    let src = format!(
        "{}\n{}\n{}\n",
        header_line("session-a", vec![]),
        event_line(0),
        event_line(1)
    );
    let log = decode(src.as_bytes()).unwrap();
    assert_eq!(log.encoding, LogEncoding::Plain);
    assert_eq!(log.header.id, "session-a");
    assert_eq!(log.header.cwd(), Some("D:\\work\\proj"));
    assert_eq!(log.event_count, 2);
    assert_eq!(log.event_lines.len(), 2);
}

#[test]
fn decodes_single_and_multi_frame_zstd_identically() {
    let lines = [
        header_line("session-b", vec![]),
        event_line(0),
        event_line(1),
        event_line(2),
    ];
    let refs: Vec<&str> = lines.iter().map(|s| s.as_str()).collect();
    let single = decode(&zstd_all(&refs)).unwrap();
    let split = decode(&multi_frame(&[
        vec![lines[0].clone(), lines[1].clone()],
        vec![lines[2].clone()],
        vec![lines[3].clone()],
    ]))
    .unwrap();
    assert_eq!(single.encoding, LogEncoding::Zstd);
    assert_eq!(single.event_count, 3);
    assert_eq!(split.event_count, 3);
    assert_eq!(split.header.id, "session-b");
    assert_eq!(single.event_lines, split.event_lines);
}

#[test]
fn rewrite_preserves_other_fields_and_only_touches_identity_keys() {
    let extra = vec![
        ("agentPreset", text("standard")),
        ("origin", text("subagent")),
    ];
    let src = format!("{}\n{}\n", header_line("session-c", extra), event_line(0));
    let log = decode(src.as_bytes()).unwrap();
    let rewritten = rewrite_header_line(&log.header, &reid("session-NEW", "session-c", 1)).unwrap();
    let v = parsed(&rewritten);
    assert_eq!(v["id"], "session-NEW");
    assert_eq!(v["parentSession"], "session-c");
    assert_eq!(v["seedLength"], 1);
    assert_eq!(v["version"], 0);
    assert_eq!(v["cwd"], "D:\\work\\proj");
    assert_eq!(v["agentPreset"], "standard");
    assert_eq!(v["origin"], "subagent");
    assert_eq!(v["createdAt"], 1_700_000_000_000u64);
}

#[test]
fn copy_roundtrips_through_the_decoder_and_preserves_events() {
    let header = header_line("session-d", vec![]);
    let log = decode(&zstd_all(&[&header, &event_line(0), &event_line(1)])).unwrap();
    let rewritten = rewrite_header_line(&log.header, &reid("session-D2", "session-d", 2)).unwrap();
    let copied = log.build_copy(&rewritten).unwrap();
    let back = decode(&copied).unwrap();
    assert_eq!(back.header.id, "session-D2");
    assert_eq!(back.header.parent(), Some("session-d"));
    assert_eq!(back.event_count, 2);
    assert_eq!(back.event_lines, log.event_lines);
    assert_eq!(back.encoding, LogEncoding::Zstd);
}

#[test]
fn plaintext_copy_stays_plaintext() {
    let src = format!(
        "{}\n{}\n{}\n",
        header_line("session-e", vec![]),
        event_line(0),
        event_line(1)
    );
    let log = decode(src.as_bytes()).unwrap();
    let rewritten = rewrite_header_line(&log.header, &reid("session-E2", "session-e", 2)).unwrap();
    let out = log.build_copy(&rewritten).unwrap();
    assert_eq!(detect_encoding(&out), LogEncoding::Plain);
    assert_eq!(decode(&out).unwrap().header.id, "session-E2");
}

#[test]
fn unsupported_version_is_a_loud_refusal_not_a_guess() {
    let bad = object(vec![
        ("type", text("session")),
        ("version", num(9)),
        ("id", text("session-f")),
    ])
    .to_string();
    let err = decode(&zstd_all(&[&bad])).unwrap_err();
    assert_eq!(err, CodecError::UnsupportedVersion { found: 9 });
}

#[test]
fn rejects_non_session_first_line_and_garbage() {
    let wrong = object(vec![("type", text("event")), ("seq", num(0))]).to_string();
    assert_eq!(
        decode(&zstd_all(&[&wrong])).unwrap_err(),
        CodecError::NotASessionLog
    );
    assert_eq!(decode(&[]).unwrap_err(), CodecError::MissingHeader);
    let mut corrupt = Vec::from(ZSTD_MAGIC);
    corrupt.extend_from_slice(&[0, 1, 2, 3, 4, 5]);
    assert!(matches!(
        decode(&corrupt).unwrap_err(),
        CodecError::FrameDecode(_)
    ));
}

#[test]
fn torn_final_line_is_dropped_matching_a_committed_prefix_read() {
    let src = format!(
        "{}\n{}\n{}",
        header_line("session-g", vec![]),
        event_line(0),
        "{\"type\":\"partial\",\"seq\""
    );
    let log = decode(src.as_bytes()).unwrap();
    assert_eq!(log.event_count, 1);
}

#[test]
fn reidentification_overwrites_an_existing_lineage() {
    let extra = vec![
        ("parentSession", text("session-grand")),
        ("seedLength", num(5)),
    ];
    let src = format!("{}\n", header_line("session-h", extra));
    let log = decode(src.as_bytes()).unwrap();
    let rewritten = rewrite_header_line(&log.header, &reid("session-H2", "session-h", 0)).unwrap();
    let v = parsed(&rewritten);
    assert_eq!(v["parentSession"], "session-h");
    assert_eq!(v["seedLength"], 0);
}

#[test]
fn copy_frames_the_header_alone_even_when_the_source_is_one_frame() {
    let header = header_line("session-i", vec![]);
    let src = zstd_all(&[&header, &event_line(0), &event_line(1)]);
    let log = decode(&src).unwrap();
    let rewritten = rewrite_header_line(&log.header, &reid("session-I2", "session-i", 2)).unwrap();
    let copied = log.build_copy(&rewritten).unwrap();

    assert_eq!(split_frames(&src).len(), 1, "fixture must be a single frame");
    assert!(split_frames(&copied).len() >= 2, "copy must not stay a single frame");
    assert_header_only_first_frame(&copied);

    let back = decode(&copied).unwrap();
    assert_eq!(back.header.id, "session-I2");
    assert_eq!(back.header.parent.as_deref(), Some("session-i"));
    assert_eq!(back.event_count, 2);
    assert_eq!(back.event_bytes(), log.event_bytes());
}

#[test]
fn canonical_source_event_frames_are_carried_verbatim() {
    let header = header_line("session-j", vec![]);
    let src = multi_frame(&[
        vec![header.clone()],
        vec![event_line(0)],
        vec![event_line(1), event_line(2)],
    ]);
    let log = decode(&src).unwrap();
    let rewritten = rewrite_header_line(&log.header, &reid("session-J2", "session-j", 3)).unwrap();
    let copied = log.build_copy(&rewritten).unwrap();

    let src_ranges = split_frames(&src);
    let out_ranges = split_frames(&copied);
    assert_eq!(out_ranges.len(), src_ranges.len(), "frame count is preserved");
    assert_header_only_first_frame(&copied);
    for (i, (s, e)) in src_ranges.iter().enumerate().skip(1) {
        assert_eq!(
            &copied[out_ranges[i].0..out_ranges[i].1],
            &src[*s..*e],
            "event frame {i} must travel byte-for-byte"
        );
    }
    assert_eq!(decode(&copied).unwrap().events, log.events);
}

#[test]
fn a_dropped_torn_tail_never_travels_into_the_copy() {
    let header = header_line("session-k", vec![]);
    let mut src = Vec::new();
    src.extend(zstd::encode_all(format!("{header}\n").as_bytes(), 3).unwrap());
    src.extend(zstd::encode_all(format!("{}\n", event_line(0)).as_bytes(), 3).unwrap());
    src.extend(zstd::encode_all("{\"type\":\"partial\",\"seq\"".as_bytes(), 3).unwrap());

    let log = decode(&src).unwrap();
    assert_eq!(log.event_count, 1, "the torn record is uncommitted");
    let rewritten = rewrite_header_line(&log.header, &reid("session-K2", "session-k", 1)).unwrap();
    let copied = log.build_copy(&rewritten).unwrap();

    assert_header_only_first_frame(&copied);
    let back = decode(&copied).unwrap();
    assert_eq!(back.event_count, 1);
    assert_eq!(
        String::from_utf8_lossy(&back.events),
        format!("{}\n", event_line(0)),
        "the copy holds exactly the committed prefix"
    );
}

#[test]
fn header_only_source_copies_without_an_empty_event_frame() {
    let header = header_line("session-l", vec![]);
    let log = decode(&zstd_all(&[&header])).unwrap();
    assert_eq!(log.event_count, 0);
    let rewritten = rewrite_header_line(&log.header, &reid("session-L2", "session-l", 0)).unwrap();
    let copied = log.build_copy(&rewritten).unwrap();

    assert_header_only_first_frame(&copied);
    assert_eq!(split_frames(&copied).len(), 1, "no events → no second frame");
    let back = decode(&copied).unwrap();
    assert_eq!(back.event_count, 0);
    assert_eq!(back.header.id, "session-L2");
}

#[test]
fn generation_filenames_round_trip_through_canonical_parsing() {
    for (generation, plain, zstd) in [
        (0u64, "session.jsonl", "session.jsonl.zstd"),
        (1, "session.v1.jsonl", "session.v1.jsonl.zstd"),
        (3, "session.v3.jsonl", "session.v3.jsonl.zstd"),
        (42, "session.v42.jsonl", "session.v42.jsonl.zstd"),
    ] {
        assert_eq!(generation_filename(generation, LogEncoding::Plain), plain);
        assert_eq!(generation_filename(generation, LogEncoding::Zstd), zstd);
        assert_eq!(generation_of_filename(plain, LogEncoding::Plain), Some(generation));
        assert_eq!(generation_of_filename(zstd, LogEncoding::Zstd), Some(generation));
    }
}

#[test]
fn non_canonical_artifact_names_are_not_generations() {
    for name in [
        ".session.jsonl.zstd",
        ".session.v3.jsonl.zstd.part",
        "SESSION.jsonl.zstd",
        "session.v0.jsonl.zstd",
        "session.v01.jsonl.zstd",
        "session.v.jsonl.zstd",
        "session.v3.jsonl.bak",
        "session.v3.jsonl",
        "session.jsonl",
    ] {
        assert_eq!(
            generation_of_filename(name, LogEncoding::Zstd),
            None,
            "{name} must not resolve as a zstd generation"
        );
    }
    assert_eq!(
        generation_of_filename("session.jsonl.zstd", LogEncoding::Plain),
        None
    );
}

#[test]
fn generations_beyond_a_safe_integer_are_not_names() {
    assert_eq!(
        generation_of_filename("session.v9007199254740991.jsonl", LogEncoding::Plain),
        Some(9007199254740991)
    );
    assert_eq!(
        generation_of_filename("session.v9007199254740992.jsonl", LogEncoding::Plain),
        None
    );
}

#[test]
fn a_header_must_agree_with_its_artifact_generation() {
    let v0_header = header_line("session-g", vec![]);
    assert_eq!(
        decode_gen(&zstd_all(&[&v0_header]), 3).unwrap_err(),
        CodecError::GenerationMismatch {
            filename: 3,
            header: 0
        }
    );
    let v3_header = header_line_v(3, "session-h", vec![]);
    assert_eq!(
        decode_gen(&zstd_all(&[&v3_header]), 0).unwrap_err(),
        CodecError::GenerationMismatch {
            filename: 0,
            header: 3
        }
    );
}

#[test]
fn v2_and_v3_headers_reject_the_v0_fork_marker() {
    let extra = vec![
        ("parentSession", text("session-p")),
        ("seedLength", num(4)),
    ];
    let stamped = header_line_v(3, "session-c", extra);
    let err = decode_gen(&zstd_all(&[&stamped]), 3).unwrap_err();
    assert!(
        matches!(err, CodecError::MalformedHeader(ref m) if m.contains("seedLength")),
        "a v3 header carrying seedLength must be refused, got {err:?}"
    );
}

#[test]
fn v2_and_v3_headers_require_is_seeded() {
    let hand_rolled = object(vec![
        ("type", text("session")),
        ("version", num(3)),
        ("id", text("session-b")),
        ("createdAt", num(1_700_000_000_000)),
        ("cwd", text("D:\\work\\proj")),
        ("delegationDepth", num(0)),
    ])
    .to_string();
    let err = decode_gen(&zstd_all(&[&hand_rolled]), 3).unwrap_err();
    assert!(
        matches!(err, CodecError::MalformedHeader(ref m) if m.contains("isSeeded")),
        "v3 without isSeeded must be refused, got {err:?}"
    );
}

#[test]
fn legal_v2_and_v3_headers_decode_including_a_subagent_fork() {
    for version in [2u64, 3] {
        let plain = header_line_v(version, "session-a", vec![]);
        let log = decode_gen(&zstd_all(&[&plain]), version).unwrap();
        assert_eq!(log.header.id, "session-a");
        assert_eq!(log.header.generation, version);
        assert!(!log.header.supports_header_fork());

        let extra = vec![
            ("parentSession", text("session-p")),
            ("origin", text("subagent")),
            ("delegationDepth", num(1)),
        ];
        let child = header_line_v(version, "session-a2", extra);
        let log = decode_gen(&zstd_all(&[&child]), version).unwrap();
        assert_eq!(log.header.parent.as_deref(), Some("session-p"));
        assert!(log.header.origin_subagent);
    }
}

#[test]
fn the_copy_rewrite_is_refused_for_generations_without_a_header_marker() {
    let v0 = decode_gen(&zstd_all(&[&header_line("session-n", vec![])]), 0).unwrap();
    assert!(v0.header.supports_header_fork());
    assert!(rewrite_header_line(&v0.header, &reid("session-N2", "session-n", 0)).is_ok());

    let v1 = decode_gen(&zstd_all(&[&header_line_v(1, "session-n1", vec![])]), 1).unwrap();
    assert!(v1.header.supports_header_fork());
    assert!(rewrite_header_line(&v1.header, &reid("session-N3", "session-n1", 0)).is_ok());

    let v3 = decode_gen(&zstd_all(&[&header_line_v(3, "session-n3", vec![])]), 3).unwrap();
    assert!(!v3.header.supports_header_fork());
    assert!(rewrite_header_line(&v3.header, &reid("session-N4", "session-n3", 0)).is_err());
}

#[test]
fn versions_beyond_the_installed_catalog_are_refused() {
    let future = header_line_v(MAX_READABLE_GENERATION + 1, "session-z", vec![]);
    assert_eq!(
        decode_gen(&zstd_all(&[&future]), MAX_READABLE_GENERATION + 1).unwrap_err(),
        CodecError::UnsupportedVersion {
            found: MAX_READABLE_GENERATION + 1
        }
    );
}

#[test]
fn the_inherited_count_expands_packed_assistant_rows() {
    let header = header_line("session-pack", vec![]);
    let log = decode(&zstd_all(&[
        &header,
        &event_line(0),
        &packed_event_line(1, &["a", "b", "c"]),
        &event_line(4),
    ]))
    .unwrap();

    assert_eq!(log.event_count, 3, "three stored rows");
    assert_eq!(
        inherited_event_count(&log.event_lines).unwrap(),
        5,
        "five logical events: 1 + 3 packed + 1"
    );
}

#[test]
fn a_copy_of_a_packed_log_records_the_logical_event_count() {
    let header = header_line("session-pack-copy", vec![]);
    let log = decode(&zstd_all(&[
        &header,
        &event_line(0),
        &packed_event_line(1, &["a", "b", "c"]),
        &event_line(4),
    ]))
    .unwrap();
    let cut = inherited_event_count(&log.event_lines).unwrap();
    let rewritten =
        rewrite_header_line(&log.header, &reid("session-P2", "session-pack-copy", cut)).unwrap();
    let copied = log.build_copy(&rewritten).unwrap();
    let back = decode(&copied).unwrap();

    assert_eq!(back.event_count, 3, "rows travel verbatim");
    assert_eq!(inherited_event_count(&back.event_lines).unwrap(), 5);
    assert_eq!(
        parsed(&back.header.line).get("seedLength").and_then(Value::as_u64),
        Some(5),
        "the fork records the cut DSH expects, not the row count"
    );
}

#[test]
fn the_inherited_count_refuses_the_seq_gap_dsh_refuses() {
    let header = header_line("session-gap", vec![]);
    let log = decode(&zstd_all(&[&header, &event_line(0), &event_line(7)])).unwrap();
    let err = inherited_event_count(&log.event_lines).unwrap_err();
    assert!(
        matches!(err, CodecError::RowShape(ref detail) if detail.contains("seq gap")),
        "a seq gap must be refused, got {err:?}"
    );

    let header = header_line("session-noseq", vec![]);
    let row = object(vec![("type", text("user/message"))]).to_string();
    let log = decode(&zstd_all(&[&header, &row])).unwrap();
    assert!(matches!(
        inherited_event_count(&log.event_lines).unwrap_err(),
        CodecError::RowShape(_)
    ));
}

#[test]
fn cross_encoding_copies_are_refused() {
    assert!(encoding_conflict(LogEncoding::Zstd, Some(LogEncoding::Zstd)).is_none());
    assert!(encoding_conflict(LogEncoding::Plain, Some(LogEncoding::Plain)).is_none());
    assert!(encoding_conflict(LogEncoding::Zstd, None).is_none());
    assert!(encoding_conflict(LogEncoding::Plain, Some(LogEncoding::Zstd)).is_some());
    assert!(encoding_conflict(LogEncoding::Zstd, Some(LogEncoding::Plain)).is_some());
    assert!(
        encoding_conflict(LogEncoding::Plain, None).is_some(),
        "a plaintext source into an unobservable target home must be refused"
    );
}

#[test]
fn new_session_id_is_uuidv4_shaped() {
    let mut state: u64 = 0x9E37_79B9_7F4A_7C15;
    for _ in 0..50 {
        let mut raw = [0u8; 16];
        for b in raw.iter_mut() {
            state ^= state << 13;
            state ^= state >> 7;
            state ^= state << 17;
            *b = (state >> 24) as u8;
        }
        let id = session_id_from_bytes(raw);
        let body = id.strip_prefix("session-").unwrap();
        let groups: Vec<&str> = body.split('-').collect();
        assert_eq!(groups.len(), 5, "8-4-4-4-12 shape: {id}");
        let lens: Vec<usize> = groups.iter().map(|g| g.len()).collect();
        assert_eq!(lens, vec![8, 4, 4, 4, 12]);
        assert!(
            matches!(groups[3].chars().next(), Some('8' | '9' | 'a' | 'b')),
            "variant nibble: {id}"
        );
        assert_eq!(groups[2].chars().next(), Some('4'), "version nibble: {id}");
        assert!(body.chars().all(|c| c.is_ascii_hexdigit() || c == '-'));
    }
}

#[test]
fn a_session_id_is_the_hex_of_its_bytes_with_version_and_variant_set() {
    let id = session_id_from_bytes([0xff; 16]);
    assert_eq!(id, "session-ffffffff-ffff-4fff-bfff-ffffffffffff");
    let id = session_id_from_bytes([0; 16]);
    assert_eq!(id, "session-00000000-0000-4000-8000-000000000000");
}

#[test]
fn sanitize_session_dir_keeps_dsh_shape_and_rejects_traversal() {
    assert!(sanitize_session_dir("session-abc123").is_ok());
    assert!(sanitize_session_dir("3996cc7d-be3f-4a5a-bb24-93258dbe037c").is_ok());
    for bad in ["../evil", "a/b", "..", ".", "", "evil*", "session-a b"] {
        assert!(
            sanitize_session_dir(bad).is_err(),
            "{bad:?} must not be accepted as a session handle"
        );
    }
}

#[test]
fn source_resolution_picks_the_highest_generation_and_refuses_mixed_homes() {
    let names: Vec<String> = ["session.jsonl.zstd", "session.v3.jsonl.zstd", "session.v1.jsonl.zstd", "notes.txt"]
        .iter()
        .map(|s| s.to_string())
        .collect();
    assert_eq!(resolve_generation(&names, LogEncoding::Zstd).unwrap(), Some((1, 3)));
    let mixed: Vec<String> = vec!["session.jsonl.zstd".into(), "session.v1.jsonl".into()];
    assert!(matches!(
        resolve_generation(&mixed, LogEncoding::Zstd).unwrap_err(),
        CodecError::EncodingMismatch(ref n) if n == "session.v1.jsonl"
    ));
    let none: Vec<String> = vec!["readme".into()];
    assert_eq!(resolve_generation(&none, LogEncoding::Plain).unwrap(), None);
    assert_eq!(encoding_of_name("session.v2.jsonl.zstd"), Some(LogEncoding::Zstd));
    assert_eq!(encoding_of_name("session.jsonl"), Some(LogEncoding::Plain));
    assert_eq!(encoding_of_name("session.txt"), None);
}

#[test]
fn newer_generations_are_refused_before_any_write() {
    assert!(unsupported_copy_reason(0).is_none());
    assert!(unsupported_copy_reason(1).is_none());
    assert!(unsupported_copy_reason(2).unwrap().starts_with("v2 "));
    assert!(copy_refusal(3, LogEncoding::Zstd, LogEncoding::Zstd).is_some());
    assert!(copy_refusal(0, LogEncoding::Plain, LogEncoding::Zstd).is_some());
    assert!(copy_refusal(0, LogEncoding::Zstd, LogEncoding::Zstd).is_none());
}

#[test]
fn a_prepared_copy_passes_its_own_staging_check() {
    let header = header_line("session-src", vec![]);
    let src = zstd_all(&[&header, &event_line(0), &packed_event_line(1, &["a", "b"])]);
    let prepared = prepare_copy(&src, 0, LogEncoding::Zstd, "session-new").unwrap();
    assert_eq!(prepared.parent, "session-src");
    assert_eq!(prepared.event_count, 2);
    assert_eq!(prepared.inherited, 3);
    check_staged_copy(&prepared.bytes, 0, "session-new", "session-src", 2, 3).unwrap();
    // The source itself is not a valid landing of that copy.
    assert!(check_staged_copy(&src, 0, "session-new", "session-src", 2, 3).is_err());
    // A source whose content disagrees with its name's encoding is refused.
    assert!(prepare_copy(&src, 0, LogEncoding::Plain, "session-new").is_err());
}

fn info(dir: &str, created: u64) -> SessionInfo {
    SessionInfo {
        session_dir: dir.to_string(),
        project: "--P--".into(),
        id: dir.to_string(),
        created_at_ms: created,
        cwd: None,
        parent: None,
        origin_subagent: false,
    }
}

#[test]
fn list_and_inspect_order_is_newest_first_then_by_directory() {
    let sorted = sort_sessions(vec![info("session-b", 5), info("session-c", 9), info("session-a", 5), info("session-d", 1)]);
    let dirs: Vec<&str> = sorted.iter().map(|s| s.session_dir.as_str()).collect();
    assert_eq!(dirs, vec!["session-c", "session-a", "session-b", "session-d"]);
}

#[test]
fn a_listed_session_carries_its_header_facts() {
    let extra = vec![("parentSession", text("session-parent")), ("origin", text("subagent"))];
    let log = decode_gen(&zstd_all(&[&header_line_v(3, "3996cc7d-be3f-4a5a-bb24-93258dbe037c", extra)]), 3).unwrap();
    let listed = info_from(&log.header, "3996cc7d-be3f-4a5a-bb24-93258dbe037c", "--P--");
    assert_eq!(listed.session_dir, "3996cc7d-be3f-4a5a-bb24-93258dbe037c");
    assert_eq!(listed.parent.as_deref(), Some("session-parent"));
    assert!(listed.origin_subagent);
    assert_eq!(listed.created_at_ms, 1_700_000_000_000);
    assert!(sanitize_session_dir(&listed.session_dir).is_ok());
}

#[test]
fn fan_out_selections_and_targets_are_checked_before_any_write() {
    assert_eq!(fan_out_selection(0, 2).unwrap_err(), "未选择任何会话");
    assert_eq!(fan_out_selection(1, 0).unwrap_err(), "未选择任何目标实例");
    assert!(fan_out_selection(3, 2).is_ok());
    assert_eq!(self_target_refusal("a", "a").unwrap_err(), "目标实例不能与源实例相同");
    assert!(self_target_refusal("a", "b").is_ok());
    assert_eq!(
        external_target_refusal("ext", true).unwrap_err(),
        "目标「ext」是原地接入实例，其 DSH_HOME 由你自行管理，PHL 不向其写入会话"
    );
    assert!(external_target_refusal("ext", false).is_ok());
}

#[test]
fn home_session_encoding_reads_the_existing_artifacts() {
    let names: Vec<String> = vec!["notes.txt".into(), "session.v3.jsonl".into(), "session.jsonl.zstd".into()];
    assert_eq!(home_encoding(&names), Some(LogEncoding::Plain));
    let zstd: Vec<String> = vec![".session.jsonl.zstd".into(), "session.v2.jsonl.zstd".into()];
    assert_eq!(home_encoding(&zstd), Some(LogEncoding::Zstd));
    assert_eq!(home_encoding(&Vec::new()), None);
}

fn gate(id: &str, external: bool, running: bool) -> phl::sessions::TargetGate {
    phl::sessions::TargetGate { id: id.into(), external, running }
}

#[test]
fn running_source_or_target_is_refused() {
    let err = phl::sessions::copy_gate(1, "src", true, &vec![gate("dst", false, false)]).unwrap_err();
    assert!(err.contains("运行") || err.contains("正在"), "source running refused: {err}");
    let err = phl::sessions::copy_gate(1, "src", false, &vec![gate("dst", false, true)]).unwrap_err();
    assert!(err.contains("运行") || err.contains("正在"), "target running refused: {err}");
    assert_eq!(err, "实例「dst」正在运行，请先停止它再复制会话");
}

#[test]
fn copy_gate_checks_targets_in_order_before_writing() {
    let ts = vec![gate("a", false, false), gate("src", false, false), gate("ext", true, false)];
    assert_eq!(phl::sessions::copy_gate(1, "src", false, &ts).unwrap_err(), "目标实例不能与源实例相同");
    let ts = vec![gate("ext", true, true)];
    assert!(phl::sessions::copy_gate(1, "src", false, &ts).unwrap_err().contains("原地接入"));
    assert_eq!(phl::sessions::copy_gate(0, "src", true, &ts).unwrap_err(), "未选择任何会话");
    assert_eq!(phl::sessions::copy_gate(1, "src", false, &vec![]).unwrap_err(), "未选择任何目标实例");
    assert_eq!(phl::sessions::copy_gate(2, "src", false, &vec![gate("a", false, false)]), Ok(()));
}
