use wildfrost_saves::codec::{
    context_to_document, parse_context, parse_record, record_to_document,
};
use wildfrost_saves::paths::get_wildfrost_data_path;
use wildfrost_saves::snapshot::SnapShot;
use wildfrost_saves::Error;

fn record(index: u32, name: &str, date: &str) -> SnapShot {
    SnapShot { index, name: name.to_string(), date: date.to_string() }
}

#[test]
fn record_document_exact() {
    let doc = record_to_document(&record(3, "before-boss", "2024-01-01"));
    assert_eq!(doc, "{\"index\":3,\"name\":\"before-boss\",\"date\":\"2024-01-01\"}");
}

#[test]
fn record_roundtrip_plain() {
    let s = record(3, "before-boss", "2024-01-01");
    let doc = record_to_document(&s);
    assert_eq!(parse_record(&doc), Ok(s));
}

#[test]
fn record_roundtrip_escapes() {
    let s = record(9, "a\"b\\c", "\\\\srv\"x");
    let doc = record_to_document(&s);
    assert_eq!(doc, "{\"index\":9,\"name\":\"a\\\"b\\\\c\",\"date\":\"\\\\\\\\srv\\\"x\"}");
    assert_eq!(parse_record(&doc), Ok(s));
}

#[test]
fn record_roundtrip_index_bounds() {
    for index in [0u32, 1, 10, 4294967295] {
        let s = record(index, "n", "");
        assert_eq!(parse_record(&record_to_document(&s)), Ok(s));
    }
}

#[test]
fn parse_rejects_leading_zero() {
    assert_eq!(
        parse_record("{\"index\":03,\"name\":\"n\",\"date\":\"d\"}"),
        Err(Error::Parse)
    );
}

#[test]
fn parse_rejects_overflow() {
    assert_eq!(
        parse_record("{\"index\":4294967296,\"name\":\"n\",\"date\":\"d\"}"),
        Err(Error::Parse)
    );
}

#[test]
fn parse_rejects_malformed() {
    assert_eq!(parse_record(""), Err(Error::Parse));
    assert_eq!(parse_record("{}"), Err(Error::Parse));
    assert_eq!(parse_record("{\"index\":3,\"name\":\"n\",\"date\":\"d\"}x"), Err(Error::Parse));
    assert_eq!(parse_record("{\"index\":3,\"name\":\"n\",\"date\":\"d\""), Err(Error::Parse));
    assert_eq!(parse_record("{\"index\":,\"name\":\"n\",\"date\":\"d\"}"), Err(Error::Parse));
    assert_eq!(parse_record("{\"index\":3,\"name\":\"n\\x\",\"date\":\"d\"}"), Err(Error::Parse));
}

#[test]
fn context_document_exact_and_roundtrip() {
    let doc = context_to_document("Default");
    assert_eq!(doc, "{\"profile\":\"Default\"}");
    assert_eq!(parse_context(&doc), Ok("Default".to_string()));
    let tricky = context_to_document("A\"B\\C");
    assert_eq!(parse_context(&tricky), Ok("A\"B\\C".to_string()));
}

#[test]
fn parse_context_malformed() {
    assert_eq!(parse_context(""), Err(Error::Parse));
    assert_eq!(parse_context("{\"profile\":\"x\"}y"), Err(Error::Parse));
    assert_eq!(parse_context("{\"profile\":x}"), Err(Error::Parse));
}

#[test]
fn data_path_substitutes_username() {
    assert_eq!(
        get_wildfrost_data_path("alice"),
        "C:/Users/alice/AppData/LocalLow/Deadpan Games/Wildfrost/Profiles"
    );
}
