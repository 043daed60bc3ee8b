use std::collections::VecDeque;
use weighflow::decimal::Decimal;
use weighflow::events::SignedEvent;
use weighflow::export::{
    csv_attachment, csv_file_name, date_stamp, day_stamp_at, days_to_date, format_timestamp, is_leap_year,
    to_csv, today_str,
};

fn dec(s: &str) -> Decimal {
    Decimal::parse(s.as_bytes()).unwrap()
}

fn make_event(id: u64, value: &str, unit: &str, stable: bool) -> SignedEvent {
    SignedEvent {
        id,
        value: dec(value),
        unit: unit.to_string(),
        stable,
        timestamp_ms: 1700000000000 + id * 60_000,
        hmac: "a".repeat(64),
    }
}

#[test]
fn csv_tiene_encabezado_correcto() {
    let events = VecDeque::new();
    let csv = to_csv(&events);
    assert!(csv.starts_with("id,fecha_hora,timestamp_ms,valor,unidad,estable,hmac\n"));
}

#[test]
fn csv_genera_una_fila_por_evento() {
    let mut events = VecDeque::new();
    events.push_back(make_event(1, "24.55", "kg", true));
    events.push_back(make_event(2, "18.20", "kg", false));

    let csv = to_csv(&events);
    let lines: Vec<&str> = csv.lines().collect();

    assert_eq!(lines.len(), 3);
    assert!(lines[1].starts_with("1,"));
    assert!(lines[2].starts_with("2,"));
}

#[test]
fn csv_incluye_valor_con_6_decimales() {
    let mut events = VecDeque::new();
    events.push_back(make_event(1, "24.55", "kg", true));
    let csv = to_csv(&events);
    assert!(csv.contains("24.550000"), "CSV debe tener 6 decimales: {}", csv);
}

#[test]
fn csv_incluye_estado_estable() {
    let mut events = VecDeque::new();
    events.push_back(make_event(1, "10.0", "kg", true));
    events.push_back(make_event(2, "10.0", "kg", false));
    let csv = to_csv(&events);
    assert!(csv.contains(",true,"));
    assert!(csv.contains(",false,"));
}

#[test]
fn format_timestamp_produce_fecha_legible() {
    // 1700000000000 ms = 2023-11-14 22:13:20 UTC
    let s = format_timestamp(1700000000000);
    assert!(s.starts_with("2023-11-14"), "Fecha inesperada: {}", s);
}

#[test]
fn csv_buffer_vacio_solo_tiene_encabezado() {
    let events = VecDeque::new();
    let csv = to_csv(&events);
    assert_eq!(csv.lines().count(), 1);
}

#[test]
fn export_csv_incluye_encabezado_y_datos() {
    let mut events = VecDeque::new();
    events.push_back(SignedEvent {
        id: 7,
        value: dec("99.123"),
        unit: "kg".to_string(),
        stable: true,
        timestamp_ms: 1700000000000,
        hmac: "c".repeat(64),
    });
    let csv = to_csv(&events);
    assert!(csv.contains("id,fecha_hora,"), "Falta encabezado CSV");
    assert!(csv.contains("7,"), "Falta fila con id=7");
    assert!(csv.contains("99.123000"), "Falta valor con 6 decimales");
    assert!(csv.contains(",kg,"), "Falta unidad kg");
}

#[test]
fn export_csv_vacio_solo_tiene_encabezado() {
    let events: VecDeque<SignedEvent> = VecDeque::new();
    let csv = to_csv(&events);
    let lines: Vec<&str> = csv.lines().collect();
    assert_eq!(lines.len(), 1, "Sin datos debe haber solo el encabezado");
}

#[test]
fn csv_row_is_exact() {
    let mut events = VecDeque::new();
    events.push_back(SignedEvent {
        id: 3,
        value: dec("-0.0205"),
        unit: "lb".to_string(),
        stable: false,
        timestamp_ms: 1700000000999,
        hmac: "ff".to_string(),
    });
    let csv = to_csv(&events);
    assert_eq!(
        csv,
        "id,fecha_hora,timestamp_ms,valor,unidad,estable,hmac\n3,2023-11-14 22:13:20,1700000000999,-0.020500,lb,false,ff\n"
    );
}

#[test]
fn full_timestamp_text() {
    assert_eq!(format_timestamp(1700000000000), "2023-11-14 22:13:20");
    assert_eq!(format_timestamp(0), "1970-01-01 00:00:00");
    assert_eq!(format_timestamp(951782400000), "2000-02-29 00:00:00");
    assert_eq!(format_timestamp(86_399_999), "1970-01-01 23:59:59");
}

#[test]
fn calendar_edges() {
    assert_eq!(days_to_date(0), (1970, 1, 1));
    assert_eq!(days_to_date(58), (1970, 2, 28));
    assert_eq!(days_to_date(59), (1970, 3, 1));
    assert_eq!(days_to_date(364), (1970, 12, 31));
    assert_eq!(days_to_date(365), (1971, 1, 1));
    assert_eq!(days_to_date(789), (1972, 2, 29));
    assert_eq!(days_to_date(11016), (2000, 2, 29));
    assert_eq!(days_to_date(19675), (2023, 11, 14));
    assert!(is_leap_year(2000));
    assert!(!is_leap_year(1900));
    assert!(is_leap_year(2024));
    assert!(!is_leap_year(2023));
}

#[test]
fn date_stamps_and_file_names() {
    assert_eq!(date_stamp(19675), "20231114");
    assert_eq!(csv_file_name("20231114"), "pesajes_20231114.csv");
    assert_eq!(csv_attachment("20231114"), "attachment; filename=\"pesajes_20231114.csv\"");
    let today = today_str();
    assert_eq!(today.len(), 8);
    assert!(today.starts_with("20"));
}

#[test]
fn day_stamp_of_clock_readings() {
    assert_eq!(day_stamp_at(1_700_000_000_000), "20231114");
    assert_eq!(day_stamp_at(0), "19700101");
    assert_eq!(day_stamp_at(86_399_999), "19700101");
    assert_eq!(day_stamp_at(86_400_000), "19700102");
    // The stamp is the date part of the full time stamp.
    let full = format_timestamp(1_700_000_000_000);
    assert_eq!(day_stamp_at(1_700_000_000_000), full[0..10].replace('-', ""));
}
