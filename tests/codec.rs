use c8488::codec::{decode, idb, parse_number, parse_timestamp, placeholder, tokens, DecodeError, Timestamp};

const BODY: &str = "1 2023-05-01 12:30 21.5 45 -3.2 80 1.2 0.0 5.4 9.0 270 W 1013.2 1009.8 3 -5.1 -3.2 20.1 50 --.- -- --.- -- --.- -- --.- -- --.- -- --.- --";

#[test]
fn short_body_line() {
    assert_eq!(idb("0 2023-05-01 12:30 -.- 45", "s1"), "weather,station=s1 indoor_humidity=45");
}

#[test]
fn full_body_line() {
    assert_eq!(
        idb(BODY, "c8488"),
        "weather,station=c8488 indoor_temp=21.5,indoor_humidity=45,temp=-3.2,humidity=80,\
rain=1.2,rate=0.0,wind=5.4,gust=9.0,dir=270,wind_octant=\"W\",pressure=1013.2,\
pressure_local=1009.8,uv_index=3,dew=-5.1,outdoor_heat_index=-3.2,sensor1_temp=20.1,\
sensor1_humidity=50"
    );
}

#[test]
fn no_fields_line_has_no_trailing_space() {
    assert_eq!(idb("0 2023-05-01 12:30 -- . --.-", "s1"), "weather,station=s1");
    assert_eq!(idb("", "s1"), "weather,station=s1");
}

#[test]
fn empty_tokens_are_omitted() {
    assert_eq!(idb("0 d t  45", "s1"), "weather,station=s1 indoor_humidity=45");
}

#[test]
fn tokens_past_the_last_position_are_ignored() {
    let body = format!("{} 99 98", BODY);
    assert_eq!(idb(&body, "x"), idb(BODY, "x"));
}

#[test]
fn tokens_split_at_every_space() {
    assert_eq!(tokens("a  b"), vec!["a".to_string(), String::new(), "b".to_string()]);
    assert_eq!(tokens(""), vec![String::new()]);
    assert_eq!(tokens(" x "), vec![String::new(), "x".to_string(), String::new()]);
}

#[test]
fn placeholder_tokens() {
    assert!(placeholder("-"));
    assert!(placeholder("."));
    assert!(placeholder("--.-"));
    assert!(placeholder(""));
    assert!(!placeholder("-1"));
    assert!(!placeholder("0.0"));
}

#[test]
fn numbers_parse_to_mantissa_and_scale() {
    let n = parse_number("-3.25").unwrap();
    assert_eq!((n.mantissa, n.scale, n.text.as_str()), (-325, 2, "-3.25"));
    let n = parse_number("45").unwrap();
    assert_eq!((n.mantissa, n.scale), (45, 0));
    let n = parse_number("+7.").unwrap();
    assert_eq!((n.mantissa, n.scale), (7, 0));
    let n = parse_number(".5").unwrap();
    assert_eq!((n.mantissa, n.scale), (5, 1));
    let n = parse_number("999999999999999999").unwrap();
    assert_eq!(n.mantissa, 999_999_999_999_999_999);
}

#[test]
fn malformed_numbers_are_rejected() {
    for t in ["", "-", ".", "1.2.3", "abc", "1e5", "12a", "--1", "1000000000000000000", "nan"] {
        assert!(parse_number(t).is_none(), "{t}");
    }
}

#[test]
fn timestamps_parse() {
    let want = Timestamp { year: 2023, month: 5, day: 1, hour: 12, minute: 30 };
    assert_eq!(parse_timestamp("2023-05-01", "12:30"), Some(want));
    assert!(parse_timestamp("2024-02-29", "00:00").is_some());
    assert!(parse_timestamp("2023-02-29", "00:00").is_none());
    assert!(parse_timestamp("1900-02-29", "00:00").is_none());
    assert!(parse_timestamp("2000-02-29", "23:59").is_some());
    assert!(parse_timestamp("2023-13-01", "12:30").is_none());
    assert!(parse_timestamp("2023-04-31", "12:30").is_none());
    assert!(parse_timestamp("2023-05-01", "24:00").is_none());
    assert!(parse_timestamp("2023-05-01", "12:60").is_none());
    assert!(parse_timestamp("2023/05/01", "12:30").is_none());
    assert!(parse_timestamp("2023-5-01", "12:30").is_none());
}

#[test]
fn full_body_decodes() {
    let r = decode(BODY).unwrap();
    assert_eq!(r.timestamp, Timestamp { year: 2023, month: 5, day: 1, hour: 12, minute: 30 });
    assert_eq!(r.wind_octant, "W");
    assert_eq!(r.values.len(), 32);
    let v = |k: usize| r.values[k].as_ref().map(|n| (n.mantissa, n.scale));
    assert_eq!(v(0), Some((1, 0)));
    assert_eq!(v(1), None);
    assert_eq!(v(2), None);
    assert_eq!(v(3), Some((215, 1)));
    assert_eq!(v(5), Some((-32, 1)));
    assert_eq!(v(12), None);
    assert_eq!(v(13), Some((10132, 1)));
    assert_eq!(v(19), Some((50, 0)));
    for k in 20..32 {
        assert_eq!(v(k), None);
    }
}

#[test]
fn placeholders_decode_to_no_value() {
    let mut toks: Vec<&str> = BODY.split(' ').collect();
    toks[3] = "-";
    toks[4] = ".";
    toks[13] = "--.-";
    let r = decode(&toks.join(" ")).unwrap();
    assert!(r.values[3].is_none());
    assert!(r.values[4].is_none());
    assert!(r.values[13].is_none());
    assert!(r.values[5].is_some());
}

#[test]
fn short_bodies_are_truncated() {
    assert_eq!(decode("0 2023-05-01 12:30 -.- 45").err(), Some(DecodeError::TruncatedMessage));
    assert_eq!(decode("").err(), Some(DecodeError::TruncatedMessage));
    let toks: Vec<&str> = BODY.split(' ').take(31).collect();
    assert_eq!(decode(&toks.join(" ")).err(), Some(DecodeError::TruncatedMessage));
    assert_eq!(decode("x y z").err(), Some(DecodeError::TruncatedMessage));
}

#[test]
fn bad_tokens_are_reported_by_position() {
    let mut toks: Vec<&str> = BODY.split(' ').collect();
    toks[7] = "1,2";
    toks[9] = "fast";
    assert_eq!(decode(&toks.join(" ")).err(), Some(DecodeError::InvalidFieldFormat(7)));
    let mut toks: Vec<&str> = BODY.split(' ').collect();
    toks[2] = "25:00";
    assert_eq!(decode(&toks.join(" ")).err(), Some(DecodeError::InvalidFieldFormat(1)));
    let mut toks: Vec<&str> = BODY.split(' ').collect();
    toks[0] = "x";
    assert_eq!(decode(&toks.join(" ")).err(), Some(DecodeError::InvalidFieldFormat(0)));
}

#[test]
fn octant_is_taken_verbatim() {
    let mut toks: Vec<&str> = BODY.split(' ').collect();
    toks[12] = "NNW";
    assert_eq!(decode(&toks.join(" ")).unwrap().wind_octant, "NNW");
    toks[12] = "--";
    let body = toks.join(" ");
    assert_eq!(decode(&body).unwrap().wind_octant, "--");
    assert!(!idb(&body, "s").contains("wind_octant"));
}

#[test]
fn decoded_reading_encodes_as_its_body() {
    let r = decode(BODY).unwrap();
    assert_eq!(r.encode("s1"), idb(BODY, "s1"));
    let mut toks: Vec<&str> = BODY.split(' ').collect();
    toks[3] = "--.-";
    toks[12] = "SE";
    let body = toks.join(" ");
    let line = decode(&body).unwrap().encode("s1");
    assert_eq!(line, idb(&body, "s1"));
    assert!(!line.contains("indoor_temp"));
    assert!(line.contains("wind_octant=\"SE\""));
    assert!(line.contains("indoor_humidity=45,"));
}
