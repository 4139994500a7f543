use access_hub::domain::Timestamp;
use access_hub::json_naive_date_time;
use access_hub::json_naive_date_time::TimeError;
use access_hub::json_option_naive_date_time;

fn instant(year: i32, month: u32, day: u32, hour: u32, min: u32, sec: u32) -> Timestamp {
    let dt = chrono::NaiveDate::from_ymd_opt(year, month, day)
        .unwrap()
        .and_hms_opt(hour, min, sec)
        .unwrap()
        .and_utc();
    Timestamp::new(dt.timestamp(), dt.timestamp_subsec_nanos())
}

fn object(key: &str, value: serde_json::Value) -> serde_json::Value {
    let mut map = serde_json::Map::new();
    map.insert(key.to_string(), value);
    serde_json::Value::Object(map)
}

fn text_field(json: &str, key: &str) -> Option<String> {
    let value: serde_json::Value = serde_json::from_str(json).unwrap();
    value.get(key).unwrap().as_str().map(|s| s.to_string())
}

#[test]
fn test_json_naive_date_time() {
    let dt = instant(2001, 9, 8, 1, 46, 40);
    let data = object(
        "dt",
        serde_json::Value::String(json_naive_date_time::serialize(&dt).unwrap()),
    );
    let json = serde_json::to_string(&data).unwrap();
    assert_eq!(json, r#"{"dt":"2001-09-08T01:46:40.000Z"}"#);

    let text = text_field(&json, "dt").unwrap();
    assert_eq!(json_naive_date_time::deserialize(&text), Ok(dt));

    let text = text_field(r#"{"dt":"2001-09-08T01:46:40.000"}"#, "dt").unwrap();
    let result = json_naive_date_time::deserialize(&text);
    assert!(result.is_err());
}

#[test]
fn test_json_option_naive_date_time() {
    let dt = instant(2001, 9, 8, 1, 46, 40);
    let opt_dt = Some(dt);
    let written = json_option_naive_date_time::serialize(&opt_dt).unwrap();
    let data = object(
        "opt_dt",
        match written {
            Some(text) => serde_json::Value::String(text),
            None => serde_json::Value::Null,
        },
    );
    let json = serde_json::to_string(&data).unwrap();
    assert_eq!(json, r#"{"opt_dt":"2001-09-08T01:46:40.000Z"}"#);

    let text = text_field(&json, "opt_dt");
    assert_eq!(json_option_naive_date_time::deserialize(text.as_deref()), Ok(opt_dt));

    let opt_dt: Option<Timestamp> = None;
    let written = json_option_naive_date_time::serialize(&opt_dt).unwrap();
    let data = object(
        "opt_dt",
        match written {
            Some(text) => serde_json::Value::String(text),
            None => serde_json::Value::Null,
        },
    );
    let json = serde_json::to_string(&data).unwrap();
    assert_eq!(json, r#"{"opt_dt":null}"#);

    let text = text_field(&json, "opt_dt");
    assert_eq!(json_option_naive_date_time::deserialize(text.as_deref()), Ok(opt_dt));

    let text = text_field(r#"{"opt_dt":"2001-09-08T01:46:40.000"}"#, "opt_dt");
    let result = json_option_naive_date_time::deserialize(text.as_deref());
    assert!(result.is_err());
}

#[test]
fn serialize_epoch_second_one_billion() {
    let text = json_naive_date_time::serialize(&Timestamp::new(1_000_000_000, 0)).unwrap();
    assert_eq!(text, "2001-09-09T01:46:40.000Z");
}

#[test]
fn serialize_cuts_to_milliseconds() {
    let text = json_naive_date_time::serialize(&Timestamp::new(0, 123_999_999)).unwrap();
    assert_eq!(text, "1970-01-01T00:00:00.123Z");
}

#[test]
fn serialize_before_the_epoch() {
    let text = json_naive_date_time::serialize(&Timestamp::new(-1, 0)).unwrap();
    assert_eq!(text, "1969-12-31T23:59:59.000Z");
}

#[test]
fn serialize_out_of_range() {
    assert_eq!(
        json_naive_date_time::serialize(&Timestamp::new(i64::MAX, 0)),
        Err(TimeError::OutOfRange)
    );
    assert_eq!(
        json_option_naive_date_time::serialize(&Some(Timestamp::new(i64::MIN, 0))),
        Err(TimeError::OutOfRange)
    );
}

#[test]
fn deserialize_cuts_to_whole_seconds() {
    assert_eq!(
        json_naive_date_time::deserialize("2001-09-09T01:46:40.789Z"),
        Ok(Timestamp::new(1_000_000_000, 0))
    );
}

#[test]
fn deserialize_applies_the_offset() {
    assert_eq!(
        json_naive_date_time::deserialize("2001-09-09T03:46:40+02:00"),
        Ok(Timestamp::new(1_000_000_000, 0))
    );
}

#[test]
fn deserialize_rejects_other_text() {
    assert_eq!(json_naive_date_time::deserialize(""), Err(TimeError::Malformed));
    assert_eq!(json_naive_date_time::deserialize("yesterday"), Err(TimeError::Malformed));
    assert_eq!(
        json_option_naive_date_time::deserialize(Some("2001-13-09T01:46:40Z")),
        Err(TimeError::Malformed)
    );
}

#[test]
fn round_trip_of_whole_seconds() {
    for secs in [0i64, 1, 86_399, 86_400, 951_782_400, 1_700_000_000, -86_400] {
        let t = Timestamp::new(secs, 0);
        let text = json_naive_date_time::serialize(&t).unwrap();
        assert_eq!(json_naive_date_time::deserialize(&text), Ok(t));
    }
}
