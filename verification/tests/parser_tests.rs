use weighflow::decimal::Decimal;
use weighflow::events::WeightUnit;
use weighflow::parser::detector::ProtocolDetector;
use weighflow::parser::protocols::crlf::CrLfProtocol;
use weighflow::parser::protocols::stx_etx::StxEtxProtocol;
use weighflow::parser::protocols::{
    detect_stable, detect_unit, extract_numeric, parse_ascii_frame, parse_ascii_frame_at,
    Protocol, ProtocolKind,
};
use weighflow::parser::ParserEngine;

fn val(d: &Decimal) -> f64 {
    String::from_utf8(d.to_text()).unwrap().parse().unwrap()
}

// ── detector ────────────────────────────────────────────────────────────────

#[test]
fn detects_stx_etx_after_3_frames() {
    let mut detector = ProtocolDetector::new();

    for _ in 0..3 {
        let mut frame = vec![0x02];
        frame.extend_from_slice(b"  24.550 kg");
        frame.push(0x03);
        detector.feed(&frame);
    }

    let result = detector.feed(&[]);
    assert!(result.is_some());
    assert_eq!(result.unwrap().name(), "STX/ETX");
}

#[test]
fn detects_crlf_after_3_lines() {
    let mut detector = ProtocolDetector::new();

    for _ in 0..3 {
        detector.feed(b"  24.550 kg\r\n");
    }

    let result = detector.feed(&[]);
    assert!(result.is_some());
    assert_eq!(result.unwrap().name(), "CR/LF");
}

#[test]
fn returns_none_without_enough_data() {
    let mut detector = ProtocolDetector::new();
    detector.feed(b"\x02  24.550 kg\x03");
    assert!(detector.feed(&[]).is_none());
}

#[test]
fn detects_lf_only_lines() {
    let mut detector = ProtocolDetector::new();
    assert!(detector.feed(b"1 kg\n2 kg\n").is_none());
    assert_eq!(detector.feed(b"3 kg\n"), Some(ProtocolKind::CrLf));
    assert_eq!(detector.bytes_seen(), 15);
}

#[test]
fn stx_etx_wins_over_crlf() {
    let mut detector = ProtocolDetector::new();
    let r = detector.feed(b"\x02a\x03\r\n\x02b\x03\r\n\x02c\x03\r\n");
    assert_eq!(r, Some(ProtocolKind::StxEtx));
}

#[test]
fn detection_ignores_chunking_example() {
    // CR and LF arriving in different chunks still count as one CR/LF.
    let mut split = ProtocolDetector::new();
    assert!(split.feed(b"1 kg\r").is_none());
    assert!(split.feed(b"\n2 kg\r").is_none());
    assert!(split.feed(b"\n3 kg\r").is_none());
    let a = split.feed(b"\n");
    let mut whole = ProtocolDetector::new();
    let b = whole.feed(b"1 kg\r\n2 kg\r\n3 kg\r\n");
    assert_eq!(a, Some(ProtocolKind::CrLf));
    assert_eq!(a, b);
}

// ── frames ──────────────────────────────────────────────────────────────────

#[test]
fn parses_simple_kg_line() {
    let event = parse_ascii_frame(b"S   24.550 kg").unwrap();
    assert!((val(&event.value) - 24.55).abs() < 0.001);
    assert_eq!(event.unit, WeightUnit::Kg);
    assert!(event.stable);
}

#[test]
fn parses_unstable_reading() {
    let event = parse_ascii_frame(b"US  24.550 kg").unwrap();
    assert!(!event.stable);
}

#[test]
fn parses_negative_zero_tare() {
    let event = parse_ascii_frame(b"S  -0.020 kg").unwrap();
    assert!(val(&event.value) < 0.0);
}

#[test]
fn returns_none_for_empty() {
    assert!(parse_ascii_frame(b"").is_none());
    assert!(parse_ascii_frame(b"   ").is_none());
}

#[test]
fn frame_keeps_raw_and_timestamp() {
    let e = parse_ascii_frame_at(b"\x01 12.5 lb", 42).unwrap();
    assert_eq!(e.raw, b"\x01 12.5 lb".to_vec());
    assert_eq!(e.timestamp_ms, 42);
    assert_eq!(e.unit, WeightUnit::Lb);
    assert_eq!(e.value.to_text(), b"12.5".to_vec());
}

#[test]
fn units_are_detected() {
    assert_eq!(detect_unit(b"10 KG"), WeightUnit::Kg);
    assert_eq!(detect_unit(b"10 lb"), WeightUnit::Lb);
    assert_eq!(detect_unit(b"10lb"), WeightUnit::Lb);
    assert_eq!(detect_unit(b"10 t"), WeightUnit::Ton);
    assert_eq!(detect_unit(b"10 tons"), WeightUnit::Ton);
    assert_eq!(detect_unit(b"10 g"), WeightUnit::G);
    assert_eq!(detect_unit(b"10 g net"), WeightUnit::G);
    assert_eq!(detect_unit(b"10"), WeightUnit::Unknown);
}

#[test]
fn stability_markers() {
    assert!(detect_stable(b"S 10 kg"));
    assert!(!detect_stable(b"US 10 kg"));
    assert!(!detect_stable(b"10 kg MOTION"));
    assert!(!detect_stable(b"ERR 10"));
    assert!(!detect_stable(b"10 kg dynamic"));
    assert!(!detect_stable(b"10 D kg"));
}

#[test]
fn numeric_extraction_edges() {
    let v = extract_numeric(b"ID 1500000 then 12.75").unwrap();
    assert_eq!(v.to_text(), b"12.75".to_vec());
    let v = extract_numeric(b"+7. kg").unwrap();
    assert_eq!(v.to_text(), b"7".to_vec());
    assert!(!v.is_negative());
    let v = extract_numeric(b"- 5 -3").unwrap();
    assert_eq!(v.to_text(), b"5".to_vec());
    let v = extract_numeric(b"1.2.3").unwrap();
    assert_eq!(v.to_text(), b"1.2".to_vec());
    assert!(extract_numeric(b"ERROR OVERFLOW").is_none());
    assert!(extract_numeric(b"999999.9").is_some());
    assert!(extract_numeric(b"1000000").is_none());
    let v = extract_numeric(b"0024.5").unwrap();
    assert_eq!(v.units(), 24);
}

// ── CR/LF ───────────────────────────────────────────────────────────────────

#[test]
fn parses_crlf_line() {
    let data = b"S   24.550 kg\r\n";
    let proto = CrLfProtocol;
    let (events, consumed) = proto.try_extract(data);

    assert_eq!(events.len(), 1);
    assert!((val(&events[0].value) - 24.55).abs() < 0.001);
    assert_eq!(consumed, data.len());
}

#[test]
fn parses_lf_only_line() {
    let data = b"  3.200 kg\n";
    let proto = CrLfProtocol;
    let (events, consumed) = proto.try_extract(data);

    assert_eq!(events.len(), 1);
    assert!((val(&events[0].value) - 3.2).abs() < 0.001);
    assert_eq!(consumed, data.len());
}

#[test]
fn waits_for_incomplete_line() {
    let data = b"  24.550 kg";
    let proto = CrLfProtocol;
    let (events, consumed) = proto.try_extract(data);

    assert!(events.is_empty());
    assert_eq!(consumed, 0);
}

#[test]
fn parses_multiple_lines() {
    let data = b"10.000 kg\r\n20.000 kg\r\n30.000 kg\r\n";
    let proto = CrLfProtocol;
    let (events, consumed) = proto.try_extract(data);

    assert_eq!(events.len(), 3);
    assert_eq!(consumed, data.len());
}

#[test]
fn crlf_keeps_tail_and_skips_empty_lines() {
    let (events, consumed) = CrLfProtocol.try_extract(b"\r\n\n5 kg\r\n6 k");
    assert_eq!(events.len(), 1);
    assert_eq!(events[0].raw, b"5 kg".to_vec());
    assert_eq!(consumed, 9);
    assert_eq!(CrLfProtocol.name(), "CR/LF");
}

// ── STX/ETX ─────────────────────────────────────────────────────────────────

#[test]
fn extracts_single_frame() {
    let mut frame = vec![0x02];
    frame.extend_from_slice(b"  24.550 kg S");
    frame.push(0x03);
    frame.push(0x45);

    let proto = StxEtxProtocol;
    let (events, consumed) = proto.try_extract(&frame);

    assert_eq!(events.len(), 1);
    assert!((val(&events[0].value) - 24.55).abs() < 0.001);
    assert_eq!(consumed, frame.len());
}

#[test]
fn waits_for_incomplete_frame() {
    let frame = vec![0x02, b'2', b'4', b'.', b'5'];
    let proto = StxEtxProtocol;
    let (events, consumed) = proto.try_extract(&frame);

    assert!(events.is_empty());
    assert_eq!(consumed, 0);
}

#[test]
fn extracts_multiple_frames() {
    let mut data = Vec::new();
    for _ in 0..3 {
        data.push(0x02);
        data.extend_from_slice(b"  10.000 kg S");
        data.push(0x03);
        data.push(0xAB);
    }

    let proto = StxEtxProtocol;
    let (events, consumed) = proto.try_extract(&data);

    assert_eq!(events.len(), 3);
    assert_eq!(consumed, data.len());
}

#[test]
fn stx_without_start_keeps_last_byte() {
    let (events, consumed) = StxEtxProtocol.try_extract(b"abcd");
    assert!(events.is_empty());
    assert_eq!(consumed, 3);
    let (events, consumed) = StxEtxProtocol.try_extract(b"xy\x021.5");
    assert!(events.is_empty());
    assert_eq!(consumed, 2);
    // No checksum is skipped before CR / LF / STX; the trailing bytes then
    // hold no STX, so all but the last one are discarded.
    let (events, consumed) = StxEtxProtocol.try_extract(b"\x021 kg\x03\r\n");
    assert_eq!(events.len(), 1);
    assert_eq!(consumed, 7);
    assert_eq!(StxEtxProtocol.name(), "STX/ETX");
}

// ── parser engine ───────────────────────────────────────────────────────────

#[test]
fn engine_learns_then_parses() {
    let mut eng = ParserEngine::new();
    assert!(eng.can_accept(10));
    let out = eng.on_bytes(b"1 kg\r\n2 kg\r\n3 kg\r\n");
    assert!(out.is_empty());
    assert_eq!(eng.protocol(), Some(ProtocolKind::CrLf));
    let out = eng.on_bytes(b"4.5 kg\r\n5");
    assert_eq!(out.len(), 1);
    assert_eq!(out[0].value.to_text(), b"4.5".to_vec());
    let out = eng.on_bytes(b" kg\r\n");
    assert_eq!(out.len(), 1);
    assert_eq!(out[0].value.to_text(), b"5".to_vec());
}

#[test]
fn parser_chunking_example() {
    // Law: once the framing is known, splitting a chunk gives the same readings.
    let mut a = ParserEngine::new();
    let mut b = ParserEngine::new();
    let det: Vec<u8> = (0..3).flat_map(|_| b"\x02S 0 kg\x03A".to_vec()).collect();
    a.on_bytes(&det);
    b.on_bytes(&det);
    let whole = b"\x02S 1.5 kg\x03A\x02S 2.5 kg\x03A".to_vec();
    let ra = a.on_bytes(&whole);
    let mut rb = b.on_bytes(&whole[..10]);
    rb.extend(b.on_bytes(&whole[10..]));
    let ta: Vec<Vec<u8>> = ra.iter().map(|e| e.value.to_text()).collect();
    let tb: Vec<Vec<u8>> = rb.iter().map(|e| e.value.to_text()).collect();
    assert_eq!(ta, tb);
    assert_eq!(ta, vec![b"1.5".to_vec(), b"2.5".to_vec()]);
}

#[test]
fn line_noise_leaves_reading_unchanged() {
    let clean = parse_ascii_frame_at(b"S   24.550 kg", 7).unwrap();
    let noisy = parse_ascii_frame_at(b"\xffS \x00  24.\xaa550\r\t kg\x7f", 7).unwrap();
    assert_eq!(noisy.value.to_text(), clean.value.to_text());
    assert_eq!(noisy.unit, clean.unit);
    assert_eq!(noisy.stable, clean.stable);
    assert!(parse_ascii_frame_at(b"\x00\xff\x01", 7).is_none());
    assert!(parse_ascii_frame_at(b"\x00 \xff", 7).is_none());
}

#[test]
fn unit_labels_read_back() {
    for u in [WeightUnit::Kg, WeightUnit::Lb, WeightUnit::Ton, WeightUnit::G] {
        for w in ["24.550", "-0.020", "+7", "0"] {
            let frame = format!("S   {} {}", w, u.to_string());
            assert_eq!(detect_unit(frame.as_bytes()), u, "frame {:?}", frame);
        }
    }
}

#[test]
fn detection_over_many_chunks_matches_all_at_once() {
    let stream: &[u8] = b"noise\x02 1 kg\x03\r\n\x02 2 kg\x03\r\n\x02 3 kg\x03";
    let mut whole = ProtocolDetector::new();
    let expected = whole.feed(stream);
    assert_eq!(expected, Some(ProtocolKind::StxEtx));
    // One byte at a time: the decision comes with the last byte and stays.
    let mut bytewise = ProtocolDetector::new();
    let mut last = None;
    for (i, b) in stream.iter().enumerate() {
        last = bytewise.feed(&[*b]);
        if i + 1 < stream.len() {
            assert!(last.is_none());
        }
    }
    assert_eq!(last, expected);
    assert!(bytewise.feed(b"more").is_some());
}

#[test]
fn parser_over_many_chunks_yields_each_reading_once() {
    let mut eng = ParserEngine::new();
    assert!(eng.on_bytes(b"S   0.000 kg\r\nS   0.000 kg\r\nS   0.000 kg\r\n").is_empty());
    let payload: Vec<u8> = (0..5).flat_map(|_| b"S   10.000 kg\r\n".to_vec()).collect();
    let mut out = Vec::new();
    for chunk in payload.chunks(4) {
        out.extend(eng.on_bytes(chunk));
    }
    assert_eq!(out.len(), 5);
    for e in &out {
        assert_eq!(e.value.to_text(), b"10.000".to_vec());
        assert_eq!(e.unit, WeightUnit::Kg);
    }
}
