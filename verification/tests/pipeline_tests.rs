//! The parser → sealer pipeline fed with bytes directly, without hardware.
use std::collections::VecDeque;
use weighflow::api::status_of;
use weighflow::decimal::Decimal;
use weighflow::events::SignedEvent;
use weighflow::parser::ParserEngine;
use weighflow::sealer::{record_event, seal, verify, IdSequence};

fn val(d: &Decimal) -> f64 {
    String::from_utf8(d.to_text()).unwrap().parse().unwrap()
}

fn stx_etx_frames(n: usize, weight: f64, unit: &str, stable: bool) -> Vec<u8> {
    let status = if stable { "S" } else { "US" };
    let mut buf = Vec::new();
    for _ in 0..n {
        buf.push(0x02);
        buf.extend_from_slice(format!("{status}   {weight:.3} {unit}").as_bytes());
        buf.push(0x03);
        buf.push(0x41);
    }
    buf
}

fn crlf_frames(n: usize, weight: f64, unit: &str, stable: bool) -> Vec<u8> {
    let status = if stable { "S" } else { "US" };
    let line = format!("{status}   {weight:.3} {unit}\r\n");
    line.repeat(n).into_bytes()
}

fn crlf(weight: f64, unit: &str, stable: bool) -> Vec<u8> {
    crlf_frames(1, weight, unit, stable)
}

fn det_crlf() -> Vec<u8> {
    crlf_frames(3, 0.0, "kg", true)
}

fn det_stx() -> Vec<u8> {
    stx_etx_frames(3, 0.0, "kg", true)
}

/// Detection bytes first, then each chunk; every reading is sealed with
/// increasing ids and recorded in a log bounded by `max_events`.
fn pipeline(detection: Vec<u8>, chunks: Vec<Vec<u8>>, key: &[u8], max_events: usize) -> Vec<SignedEvent> {
    let mut engine = ParserEngine::new();
    let mut log: VecDeque<SignedEvent> = VecDeque::new();
    let mut ids = IdSequence::new();
    let mut inputs = vec![detection];
    inputs.extend(chunks);
    for chunk in inputs {
        assert!(engine.can_accept(chunk.len()));
        for event in engine.on_bytes(&chunk) {
            assert!(ids.can_take());
            let signed = seal(&event, ids.take(), key);
            record_event(&mut log, max_events, signed);
        }
    }
    log.into_iter().collect()
}

fn run_pipeline(detection: Vec<u8>, payload: Vec<u8>, key: &[u8]) -> Vec<SignedEvent> {
    pipeline(detection, vec![payload], key, 1000)
}

#[test]
fn crlf_extrae_peso_correcto() {
    let events = run_pipeline(crlf_frames(3, 0.0, "kg", true), crlf_frames(1, 24.550, "kg", true), b"test-key");
    assert!(!events.is_empty(), "Debe producir al menos un evento");
    let e = &events[0];
    assert!((val(&e.value) - 24.550).abs() < 0.01, "Peso incorrecto");
    assert_eq!(e.unit, "kg");
    assert!(e.stable, "Debe ser estable");
}

#[test]
fn crlf_detecta_lectura_inestable() {
    let events = run_pipeline(crlf_frames(3, 0.0, "kg", false), crlf_frames(1, 18.200, "kg", false), b"test-key");
    assert!(!events.is_empty());
    assert!(!events[0].stable, "Debe ser EN MOVIMIENTO");
}

#[test]
fn crlf_multiples_lecturas_en_payload() {
    let events = run_pipeline(crlf_frames(3, 0.0, "kg", true), crlf_frames(5, 10.000, "kg", true), b"test-key");
    assert_eq!(events.len(), 5, "Debe producir 5 eventos, produjo {}", events.len());
}

#[test]
fn crlf_peso_cero_balanza_vacia() {
    let events = run_pipeline(crlf_frames(3, 0.0, "kg", true), crlf_frames(1, 0.000, "kg", true), b"test-key");
    assert!(!events.is_empty());
    assert!(val(&events[0].value).abs() < 0.001, "Peso debería ser ~0");
}

#[test]
fn stx_etx_extrae_peso_correcto() {
    let events = run_pipeline(stx_etx_frames(3, 0.0, "kg", true), stx_etx_frames(1, 52.750, "kg", true), b"test-key");
    assert!(!events.is_empty());
    assert!((val(&events[0].value) - 52.750).abs() < 0.01);
    assert_eq!(events[0].unit, "kg");
}

#[test]
fn stx_etx_detecta_inestable() {
    let events = run_pipeline(stx_etx_frames(3, 0.0, "kg", false), stx_etx_frames(1, 5.100, "kg", false), b"test-key");
    assert!(!events.is_empty());
    assert!(!events[0].stable);
}

#[test]
fn stx_etx_multiples_eventos() {
    let events = run_pipeline(stx_etx_frames(3, 0.0, "kg", true), stx_etx_frames(4, 33.000, "kg", true), b"test-key");
    assert_eq!(events.len(), 4);
}

#[test]
fn evento_firmado_pasa_verificacion() {
    let key = b"clave-secreta-produccion";
    let events = run_pipeline(crlf_frames(3, 0.0, "kg", true), crlf_frames(1, 100.000, "kg", true), key);
    assert!(!events.is_empty());
    assert!(verify(&events[0], key), "El HMAC debe ser válido con la clave correcta");
}

#[test]
fn evento_alterado_falla_verificacion() {
    let key = b"clave-secreta";
    let mut events = run_pipeline(crlf_frames(3, 0.0, "kg", true), crlf_frames(1, 50.000, "kg", true), key);
    assert!(!events.is_empty());
    events[0].value = Decimal::parse(b"9999.999").unwrap();
    assert!(!verify(&events[0], key), "HMAC debe fallar cuando el valor fue alterado");
}

#[test]
fn clave_incorrecta_falla_verificacion() {
    let events = run_pipeline(crlf_frames(3, 0.0, "kg", true), crlf_frames(1, 25.000, "kg", true), b"clave-correcta");
    assert!(!events.is_empty());
    assert!(!verify(&events[0], b"clave-incorrecta"), "HMAC debe fallar con clave distinta");
}

#[test]
fn hmac_tiene_64_caracteres_hex() {
    let events = run_pipeline(crlf_frames(3, 0.0, "kg", true), crlf_frames(1, 1.0, "kg", true), b"key");
    assert!(!events.is_empty());
    assert_eq!(events[0].hmac.len(), 64, "HMAC-SHA256 debe tener 64 chars hex");
}

#[test]
fn api_status_sin_eventos_devuelve_desconectado() {
    let log: VecDeque<SignedEvent> = VecDeque::new();
    let status = status_of(&log, 1_700_000_000_000);
    assert!(!status.connected);
    assert_eq!(status.event_count, 0);
    assert!(status.last_event.is_none());
}

#[test]
fn api_status_con_evento_reciente_marca_conectado() {
    let mut log: VecDeque<SignedEvent> = VecDeque::new();
    log.push_back(SignedEvent {
        id: 1,
        value: Decimal::parse(b"50.0").unwrap(),
        unit: "kg".to_string(),
        stable: true,
        timestamp_ms: 1_700_000_000_000,
        hmac: "b".repeat(64),
    });
    let status = status_of(&log, 1_700_000_000_500);
    assert!(status.connected, "Evento reciente debe marcar connected=true");
    assert_eq!(status.event_count, 1);
    assert!(!status_of(&log, 1_700_000_010_000).connected);
    assert!(status_of(&log, 1_699_000_000_000).connected);
    assert_eq!(status.last_event.unwrap().id, 1);
}

#[test]
fn ruido_prefijo_no_impide_parseo() {
    let mut payload = vec![0xFF, 0xFE, 0x00, 0xAA, 0xBB];
    payload.extend_from_slice(&crlf(42.0, "kg", true));
    let events = run_pipeline(det_crlf(), payload, b"test");
    assert!(!events.is_empty(), "Debe extraer el evento a pesar del ruido prefijo");
    assert!(events.iter().any(|e| (val(&e.value) - 42.0).abs() < 0.01), "Debe encontrar el peso 42.000 kg");
}

#[test]
fn frame_crlf_partido_en_dos_envios() {
    let events = pipeline(det_crlf(), vec![b"S   24.500 kg".to_vec(), b"\r\n".to_vec()], b"test", 1000);
    assert!(!events.is_empty(), "Trama partida debe producir un evento");
    assert!((val(&events[0].value) - 24.5).abs() < 0.01, "Peso incorrecto");
}

#[test]
fn ruido_entre_frames_validos_produce_dos_eventos() {
    let mut payload = Vec::new();
    payload.extend_from_slice(&crlf(10.0, "kg", true));
    payload.extend_from_slice(&[0xFF, 0xFE]);
    payload.extend_from_slice(&crlf(20.0, "kg", true));
    let events = run_pipeline(det_crlf(), payload, b"test");
    assert_eq!(events.len(), 2, "Debe producir 2 eventos");
    assert!((val(&events[0].value) - 10.0).abs() < 0.01);
    assert!((val(&events[1].value) - 20.0).abs() < 0.01);
}

#[test]
fn basura_masiva_no_produce_eventos() {
    let events = run_pipeline(det_crlf(), vec![0xFF; 1024], b"test");
    assert!(events.is_empty(), "1 KB de 0xFF no debe producir eventos (produjo {})", events.len());
}

#[test]
fn linea_sin_numero_valido_se_descarta() {
    let events = run_pipeline(det_crlf(), b"S   ERROR OVERFLOW\r\n".to_vec(), b"test");
    assert!(events.is_empty(), "Línea sin número debe descartarse");
}

#[test]
fn peso_fuera_de_rango_se_descarta() {
    let events = run_pipeline(det_crlf(), b"S   1500000.000 kg\r\n".to_vec(), b"test");
    assert!(events.is_empty(), "Peso >= 1_000_000 debe ser descartado como dato inválido");
}

#[test]
fn ring_buffer_descarta_mas_antiguos() {
    let payload: Vec<u8> = (1u32..=7).flat_map(|w| crlf(w as f64, "kg", true)).collect();
    let events = pipeline(det_crlf(), vec![payload], b"test", 3);
    assert_eq!(events.len(), 3, "Ring buffer de tamaño 3 debe conservar exactamente 3 eventos");
    assert!((val(&events[0].value) - 5.0).abs() < 0.01);
    assert!((val(&events[1].value) - 6.0).abs() < 0.01);
    assert!((val(&events[2].value) - 7.0).abs() < 0.01);
}

#[test]
fn ids_son_monotonicamente_crecientes() {
    let payload: Vec<u8> = (1u32..=5).flat_map(|w| crlf(w as f64, "kg", true)).collect();
    let events = run_pipeline(det_crlf(), payload, b"test");
    assert_eq!(events.len(), 5);
    for w in events.windows(2) {
        assert!(w[0].id < w[1].id, "IDs deben ser estrictamente crecientes");
    }
}

#[test]
fn unidad_libras_se_detecta() {
    let detection: Vec<u8> = (0..3).flat_map(|_| b"S   10.000 lb\r\n".to_vec()).collect();
    let events = run_pipeline(detection, b"S   55.250 lb\r\n".to_vec(), b"test");
    assert!(!events.is_empty(), "Debe detectar lectura en libras");
    assert_eq!(events[0].unit, "lb", "Unidad incorrecta: {}", events[0].unit);
    assert!((val(&events[0].value) - 55.25).abs() < 0.01);
}

#[test]
fn stx_etx_frame_partido_en_dos_envios() {
    let mut chunk1 = vec![0x02u8];
    chunk1.extend_from_slice(b"S   88.0");
    let mut chunk2 = b"00 kg".to_vec();
    chunk2.push(0x03);
    chunk2.push(0x41);
    let events = pipeline(det_stx(), vec![chunk1, chunk2], b"test", 1000);
    assert!(!events.is_empty(), "STX/ETX partido en dos envíos debe producir un evento");
    assert!((val(&events[0].value) - 88.0).abs() < 0.01, "Peso incorrecto");
}
