use weighflow::cli::parse_args;
use weighflow::config::{config_candidates, resolve_candidate, CandidateOutcome, Config, ConfigPath};
use weighflow::decimal::Decimal;
use weighflow::error::WeighFlowError;
use weighflow::events::{SignedEvent, WeightUnit};
use weighflow::serial::{choose_port, on_read, PortCandidate, ReadAction, ReadOutcome};
use weighflow::simulator::{build_crlf, build_stx_etx, clock_text_at, hms_text, tick_time, xor_checksum};
use weighflow::wedge::{
    after_attempt, clipboard_text, separator_keys, should_type, wedge_step, weight_text, SeparatorKey,
    WedgeAction,
};

fn args(v: &[&str]) -> Vec<String> {
    v.iter().map(|s| s.to_string()).collect()
}

#[test]
fn cli_arguments() {
    assert_eq!(parse_args(&args(&[])), (None, None));
    assert_eq!(
        parse_args(&args(&["--config", "/x.toml", "--port", "COM3"])),
        (Some("/x.toml".to_string()), Some("COM3".to_string()))
    );
    assert_eq!(parse_args(&args(&["/dev/ttyS0", "/dev/ttyS1"])), (None, Some("/dev/ttyS0".to_string())));
    assert_eq!(parse_args(&args(&["-v", "--config"])), (None, None));
    assert_eq!(
        parse_args(&args(&["/dev/a", "--port", "/dev/b"])),
        (None, Some("/dev/b".to_string()))
    );
}

#[test]
fn config_defaults_and_resolution() {
    let c = Config::default();
    assert_eq!(c.serial.baud_rate, 9600);
    assert!(c.serial.port.is_none());
    assert_eq!(c.security.hmac_key, "weighflow-change-in-production");
    assert_eq!(c.server.http_port, 8080);
    assert_eq!(c.server.event_buffer_size, 1000);
    assert!(!c.wedge.enabled);
    assert_eq!(c.wedge.separator, "tab");
    assert!(c.wedge.stable_only);
    assert!(!c.wedge.clipboard);
    assert_eq!(c.wedge.min_interval_ms, 500);
    assert_eq!(c.export.output_dir, ".");
    assert!(resolve_candidate(CandidateOutcome::Missing).is_none());
    assert!(resolve_candidate(CandidateOutcome::Unreadable).is_none());
    let mut custom = Config::default();
    custom.server.http_port = 9090;
    assert_eq!(resolve_candidate(CandidateOutcome::Parsed(custom)).unwrap().server.http_port, 9090);
    assert_eq!(resolve_candidate(CandidateOutcome::Invalid).unwrap().server.http_port, 8080);
}

fn paths(v: Vec<ConfigPath>) -> Vec<(String, Option<String>)> {
    v.into_iter()
        .map(|c| match c {
            ConfigPath::File(p) => (p, None),
            ConfigPath::Under(b, r) => (b, Some(r)),
        })
        .collect()
}

#[test]
fn config_candidate_order() {
    assert_eq!(
        paths(config_candidates(Some("/x.toml"), false, None, None, Some("/home/u"))),
        vec![("/x.toml".to_string(), None)]
    );
    assert_eq!(
        paths(config_candidates(None, false, None, None, Some("/home/u"))),
        vec![
            ("weighflow.toml".to_string(), None),
            ("/etc/weighflow/weighflow.toml".to_string(), None),
            ("/home/u".to_string(), Some(".config/weighflow/weighflow.toml".to_string())),
        ]
    );
    assert_eq!(
        paths(config_candidates(None, false, None, None, None)),
        vec![
            ("weighflow.toml".to_string(), None),
            ("/etc/weighflow/weighflow.toml".to_string(), None),
        ]
    );
    assert_eq!(
        paths(config_candidates(None, true, Some("C:\\ProgramData"), Some("C:\\AppData"), Some("/h"))),
        vec![
            ("weighflow.toml".to_string(), None),
            ("C:\\ProgramData".to_string(), Some("WeighFlow\\weighflow.toml".to_string())),
            ("C:\\AppData".to_string(), Some("WeighFlow\\weighflow.toml".to_string())),
        ]
    );
    assert_eq!(
        paths(config_candidates(None, true, None, Some("C:\\AppData"), None)),
        vec![
            ("weighflow.toml".to_string(), None),
            ("C:\\AppData".to_string(), Some("WeighFlow\\weighflow.toml".to_string())),
        ]
    );
}

#[test]
fn port_choice() {
    let ports = vec![
        PortCandidate { name: "/dev/rfcomm0".to_string(), bluetooth: true },
        PortCandidate { name: "/dev/ttyUSB0".to_string(), bluetooth: false },
        PortCandidate { name: "/dev/ttyS0".to_string(), bluetooth: false },
    ];
    assert_eq!(choose_port(&ports).unwrap(), "/dev/ttyUSB0");
    let only_bt = vec![PortCandidate { name: "bt".to_string(), bluetooth: true }];
    assert!(matches!(choose_port(&only_bt), Err(WeighFlowError::NoPorts)));
    assert!(matches!(choose_port(&vec![]), Err(WeighFlowError::NoPorts)));
}

#[test]
fn read_reactions() {
    assert!(matches!(on_read(ReadOutcome::Data(7)), ReadAction::Forward(7)));
    assert!(matches!(on_read(ReadOutcome::Closed), ReadAction::Stop(WeighFlowError::Disconnected)));
    let e = std::io::Error::new(std::io::ErrorKind::Other, "boom");
    assert!(matches!(on_read(ReadOutcome::Failed(e)), ReadAction::Stop(WeighFlowError::Io(_))));
    assert!(matches!(on_read(ReadOutcome::TimedOut), ReadAction::WarnSilent));
}

#[test]
fn error_messages() {
    assert_eq!(
        WeighFlowError::NoPorts.message(),
        "No se encontraron puertos seriales — verifica que el cable RS-232 esté conectado"
    );
    assert_eq!(
        WeighFlowError::PortOpen { port: "COM3".to_string(), reason: "busy".to_string() }.message(),
        "No se pudo abrir el puerto 'COM3': busy"
    );
    assert_eq!(
        WeighFlowError::Disconnected.message(),
        "Puerto serial desconectado — verifica el cable RS-232"
    );
    assert_eq!(
        WeighFlowError::Timeout { seconds: 5 }.message(),
        "Sin datos en 5s — balanza apagada o sin señal"
    );
    let io = std::io::Error::new(std::io::ErrorKind::Other, "boom");
    assert_eq!(WeighFlowError::Io(io).message(), "Error de I/O en puerto serial: boom");
}

#[test]
fn wedge_decisions() {
    let mut cfg = Config::default().wedge;
    assert!(should_type(&cfg, true, None));
    assert!(!should_type(&cfg, false, None));
    assert!(!should_type(&cfg, true, Some(499)));
    assert!(should_type(&cfg, true, Some(500)));
    cfg.stable_only = false;
    assert!(should_type(&cfg, false, Some(1000)));
    assert_eq!(separator_keys("tab"), vec![SeparatorKey::Tab]);
    assert_eq!(separator_keys("enter"), vec![SeparatorKey::Enter]);
    assert_eq!(separator_keys("tab_enter"), vec![SeparatorKey::Tab, SeparatorKey::Enter]);
    assert_eq!(separator_keys("tab+enter"), vec![SeparatorKey::Tab, SeparatorKey::Enter]);
    assert!(separator_keys("space").is_empty());
    let w = weight_text(&Decimal::parse(b"24.5506").unwrap());
    assert_eq!(w, "24.551");
    assert_eq!(weight_text(&Decimal::parse(b"24.5504").unwrap()), "24.550");
    assert_eq!(clipboard_text(&w, "kg"), "24.551 kg");
}

fn signed(value: &str, stable: bool) -> SignedEvent {
    SignedEvent {
        id: 1,
        value: Decimal::parse(value.as_bytes()).unwrap(),
        unit: "kg".to_string(),
        stable,
        timestamp_ms: 0,
        hmac: String::new(),
    }
}

#[test]
fn wedge_steps_over_readings() {
    let mut cfg = Config::default().wedge;
    // Keyboard mode off: nothing is typed.
    assert!(matches!(wedge_step(&cfg, None, &signed("1.5", true), 0), WedgeAction::Skip));
    cfg.enabled = true;
    cfg.clipboard = true;
    cfg.separator = "tab_enter".to_string();
    match wedge_step(&cfg, None, &signed("24.55", true), 0) {
        WedgeAction::Type { text, clipboard, keys } => {
            assert_eq!(text, "24.550");
            assert_eq!(clipboard, Some("24.550 kg".to_string()));
            assert_eq!(keys, vec![SeparatorKey::Tab, SeparatorKey::Enter]);
        }
        WedgeAction::Skip => panic!("a stable reading with no earlier typing is typed"),
    }
    // Unstable readings are skipped while only stable ones are wanted.
    assert!(matches!(wedge_step(&cfg, None, &signed("2", false), 0), WedgeAction::Skip));
    // Within the minimum interval of the last typing: skipped; after it: typed.
    let last = after_attempt(None, true, 1000);
    assert_eq!(last, Some(1000));
    assert!(matches!(wedge_step(&cfg, last, &signed("3", true), 1499), WedgeAction::Skip));
    assert!(matches!(wedge_step(&cfg, last, &signed("3", true), 1500), WedgeAction::Type { .. }));
    // A clock reading earlier than the last typing counts as no time passed.
    assert!(matches!(wedge_step(&cfg, last, &signed("3", true), 10), WedgeAction::Skip));
    // A failed typing leaves the time of the last typed weight.
    assert_eq!(after_attempt(last, false, 5000), Some(1000));
    cfg.clipboard = false;
    match wedge_step(&cfg, None, &signed("0.0004", true), 0) {
        WedgeAction::Type { text, clipboard, .. } => {
            assert_eq!(text, "0.000");
            assert_eq!(clipboard, None);
        }
        WedgeAction::Skip => panic!("typed"),
    }
}

#[test]
fn units_and_values() {
    assert_eq!(WeightUnit::Kg.to_string(), "kg");
    assert_eq!(WeightUnit::Lb.to_string(), "lb");
    assert_eq!(WeightUnit::Ton.to_string(), "t");
    assert_eq!(WeightUnit::G.to_string(), "g");
    assert_eq!(WeightUnit::Unknown.to_string(), "?");
    let d = Decimal::parse(b"-12.340").unwrap();
    assert!(d.is_negative());
    assert_eq!(d.units(), 12);
    assert_eq!(d.to_text(), b"-12.340".to_vec());
    assert_eq!(d.fixed(3), b"-12.340".to_vec());
    assert_eq!(d.copy().to_text(), d.to_text());
    assert!(Decimal::parse(b"12 kg").is_none());
    assert!(Decimal::parse(b"1000000").is_none());
    assert!(Decimal::parse(b"").is_none());
    assert_eq!(Decimal::parse(b"0.9995").unwrap().fixed(3), b"1.000".to_vec());
}

#[test]
fn simulator_frames() {
    assert_eq!(build_crlf("S", "24.550"), b"S   24.550 kg\r\n".to_vec());
    let f = build_stx_etx("US", "1.000");
    let payload = b"US   1.000 kg";
    assert_eq!(f[0], 0x02);
    assert_eq!(&f[1..f.len() - 2], payload);
    assert_eq!(f[f.len() - 2], 0x03);
    assert_eq!(f[f.len() - 1], payload.iter().fold(0u8, |a, b| a ^ b));
    assert_eq!(xor_checksum(&[0x0F, 0xF0, 0x01]), 0xFE);
    assert_eq!(hms_text(1700000000), "22:13:20");
    assert_eq!(tick_time().len(), 8);
}

#[test]
fn clock_text_of_clock_readings() {
    assert_eq!(clock_text_at(1_700_000_000_123), "22:13:20");
    assert_eq!(clock_text_at(0), "00:00:00");
    assert_eq!(clock_text_at(86_399_999), "23:59:59");
    assert_eq!(clock_text_at(86_400_000), "00:00:00");
    assert_eq!(clock_text_at(999), "00:00:00");
    assert_eq!(clock_text_at(1_000), "00:00:01");
}

#[test]
fn fixed_rounds_to_nearest_ties_to_even() {
    let fx = |s: &str, p: u32| String::from_utf8(Decimal::parse(s.as_bytes()).unwrap().fixed(p)).unwrap();
    // Exact ties go to the even last digit, as `{:.p}` does with these values.
    assert_eq!(fx("0.0625", 3), "0.062");
    assert_eq!(fx("0.0078125", 6), "0.007812");
    assert_eq!(fx("0.375", 2), "0.38");
    assert_eq!(fx("-0.125", 2), "-0.12");
    assert_eq!(fx("9.9995", 3), "10.000");
    // More than half goes up, less than half goes down.
    assert_eq!(fx("0.06251", 3), "0.063");
    assert_eq!(fx("0.0624999", 3), "0.062");
    assert_eq!(fx("999999.9999999", 6), "1000000.000000");
    // Fewer digits than places are padded with zeros.
    assert_eq!(fx("12", 3), "12.000");
    for (s, p) in [("0.0625", 3u32), ("0.0078125", 6), ("0.375", 2), ("-0.125", 2), ("1.5", 1)] {
        let f: f64 = s.parse().unwrap();
        assert_eq!(fx(s, p), format!("{:.*}", p as usize, f), "{} to {} places", s, p);
    }
}
