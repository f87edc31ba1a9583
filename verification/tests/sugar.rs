use gantz::sugar::{Atom, Datum, FormatError, PlyphonSugar, SugarArgs, Token, DEFAULT_GAIN_LAG};

fn number(text: &str) -> Token {
    let f: f32 = text.parse().unwrap();
    Token::Number(f.to_bits(), format!("{f}"), text.parse().ok())
}

fn no_args() -> SugarArgs {
    SugarArgs { keywords: vec![] }
}

/// Reads `(head #:keyword value)`.
fn read_spec(head: &str, args: &[(&str, &str)]) -> Option<Datum> {
    let keywords = args
        .iter()
        .map(|(k, v)| (k.to_string(), number(v)))
        .collect();
    PlyphonSugar.read_spec(head, &SugarArgs { keywords }).expect("read_spec")
}

fn as_f64(a: Option<&Atom>) -> Option<f64> {
    match a {
        Some(Atom::Float(bits, _)) => Some(f64::from(f32::from_bits(*bits))),
        _ => None,
    }
}

fn as_i64(a: Option<&Atom>) -> Option<i64> {
    match a {
        Some(Atom::Integer(n)) => Some(*n),
        _ => None,
    }
}

#[test]
fn sine_round_trips() {
    let s = PlyphonSugar;
    let bare = s.read_bare("~sine").expect("bare");
    assert_eq!(bare.tag, "Sine");
    assert_eq!(s.write_spec(&bare).as_deref(), Some("~sine"));
    let empty = read_spec("~sine", &[]).expect("empty");
    assert_eq!(s.write_spec(&empty).as_deref(), Some("~sine"));
    let lagged = read_spec("~sine", &[("freq-lag", "0.5")]).expect("lagged");
    assert_eq!(as_f64(lagged.get("freq_lag")), Some(0.5));
    assert_eq!(
        s.write_spec(&lagged).as_deref(),
        Some("(~sine #:freq-lag 0.5)"),
    );
}

#[test]
fn out_round_trips() {
    let s = PlyphonSugar;
    let bare = s.read_bare("~out").expect("bare");
    assert_eq!(s.write_spec(&bare).as_deref(), Some("~out"));
    let defaulted = Datum {
        tag: "Out".to_string(),
        fields: vec![(
            "gain_lag".to_string(),
            Atom::Float(DEFAULT_GAIN_LAG, "0.01".to_string()),
        )],
    };
    assert_eq!(f32::from_bits(DEFAULT_GAIN_LAG), 0.01);
    assert_eq!(s.write_spec(&defaulted).as_deref(), Some("~out"));
    let lagged = read_spec("~out", &[("gain-lag", "0.02")]).expect("lagged");
    assert_eq!(
        s.write_spec(&lagged).as_deref(),
        Some("(~out #:gain-lag 0.02)"),
    );
}

#[test]
fn lag_round_trips() {
    let s = PlyphonSugar;
    let bare = s.read_bare("~lag").expect("bare");
    assert_eq!(bare.tag, "Lag");
    assert_eq!(s.write_spec(&bare).as_deref(), Some("~lag"));
    let spec = read_spec("~lag", &[]).expect("spec");
    assert_eq!(spec.tag, "Lag");
    assert_eq!(s.write_spec(&spec).as_deref(), Some("~lag"));
}

#[test]
fn tap_round_trips() {
    let s = PlyphonSugar;
    let bare = s.read_bare("~tap").expect("bare");
    assert_eq!(bare.tag, "Tap");
    assert_eq!(s.write_spec(&bare).as_deref(), Some("~tap"));
    let empty = read_spec("~tap", &[]).expect("empty");
    assert_eq!(s.write_spec(&empty).as_deref(), Some("~tap"));
    let defaulted = Datum {
        tag: "Tap".to_string(),
        fields: vec![("size".to_string(), Atom::Integer(256))],
    };
    assert_eq!(s.write_spec(&defaulted).as_deref(), Some("~tap"));
    let sized = read_spec("~tap", &[("size", "512")]).expect("sized");
    assert_eq!(as_i64(sized.get("size")), Some(512));
    assert_eq!(s.write_spec(&sized).as_deref(), Some("(~tap #:size 512)"));
}

#[test]
fn other_nodes_are_not_ours() {
    assert!(PlyphonSugar.read_spec("number", &no_args()).expect("ok").is_none());
    assert!(PlyphonSugar.read_bare("number").is_none());
    let number = Datum {
        tag: "Number".to_string(),
        fields: vec![],
    };
    assert!(PlyphonSugar.write_spec(&number).is_none());
    assert!(PlyphonSugar.keyword_for_tag("Number").is_none());
}

#[test]
fn malformed_arguments_are_errors() {
    let text = |k: &str| SugarArgs {
        keywords: vec![(k.to_string(), Token::Text("x".to_string()))],
    };
    assert!(matches!(
        PlyphonSugar.read_spec("~sine", &text("freq-lag")),
        Err(FormatError::NotANumber(k)) if k == "freq-lag"
    ));
    assert!(matches!(
        PlyphonSugar.read_spec("~tap", &text("size")),
        Err(FormatError::NotAnInteger(k)) if k == "size"
    ));
    let half = SugarArgs {
        keywords: vec![("size".to_string(), number("0.5"))],
    };
    assert!(PlyphonSugar.read_spec("~tap", &half).is_err());
}

#[test]
fn sizes_are_at_least_one_and_lags_may_be_integers() {
    let d = read_spec("~tap", &[("size", "-4")]).unwrap();
    assert_eq!(as_i64(d.get("size")), Some(1));
    let d = read_spec("~sine", &[("freq-lag", "2")]).unwrap();
    assert_eq!(
        PlyphonSugar.write_spec(&d).as_deref(),
        Some("(~sine #:freq-lag 2)")
    );
    let negative = Datum {
        tag: "Tap".to_string(),
        fields: vec![("size".to_string(), Atom::Integer(i64::MIN))],
    };
    assert_eq!(
        PlyphonSugar.write_spec(&negative).as_deref(),
        Some("(~tap #:size -9223372036854775808)")
    );
}
