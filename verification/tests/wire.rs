use eventbus::events::wire::decode_envelope;
use eventbus::events::wire::encode_envelope;
use eventbus::events::subject_has_topic;
use eventbus::events::Event;

#[test]
fn envelope_has_canonical_json_form() {
    let event = Event::new(
        "id1".to_string(),
        "ent".to_string(),
        "top.ic".to_string(),
        vec![1, 255, 0],
        -42,
    )
    .unwrap();
    let bytes = encode_envelope(&event);
    let expected =
        "{\"id\":\"id1\",\"entity_id\":\"ent\",\"topic\":\"top.ic\",\"payload\":[1,255,0],\"timestamp\":-42}";
    assert_eq!(bytes, expected.as_bytes());
}

#[test]
fn envelope_escapes_strings() {
    let event = Event::new(
        "a\"b\\c\nd".to_string(),
        "e".to_string(),
        "t".to_string(),
        vec![7],
        0,
    )
    .unwrap();
    let bytes = encode_envelope(&event);
    let expected =
        "{\"id\":\"a\\\"b\\\\c\\u000ad\",\"entity_id\":\"e\",\"topic\":\"t\",\"payload\":[7],\"timestamp\":0}";
    assert_eq!(bytes, expected.as_bytes());
}

#[test]
fn envelope_round_trips() {
    let event = Event::new(
        "id#\u{00e9}\"quoted\"".to_string(),
        "entity#01".to_string(),
        "order.created".to_string(),
        vec![0, 1, 9, 10, 34, 92, 127, 128, 200, 255],
        i64::MIN,
    )
    .unwrap();
    let bytes = encode_envelope(&event);
    let back = decode_envelope(&bytes).unwrap();
    assert_eq!(back.id(), event.id());
    assert_eq!(back.entity_id(), event.entity_id());
    assert_eq!(back.topic(), event.topic());
    assert_eq!(back.payload(), event.payload());
    assert_eq!(back.timestamp(), event.timestamp());
}

#[test]
fn envelope_round_trips_positive_timestamp() {
    let event = Event::new(
        "a".to_string(),
        "b".to_string(),
        "c.d".to_string(),
        vec![42],
        1700000000123,
    )
    .unwrap();
    let back = decode_envelope(&encode_envelope(&event)).unwrap();
    assert_eq!(back.timestamp(), 1700000000123);
    assert_eq!(back.payload(), &[42]);
}

#[test]
fn decode_rejects_junk() {
    assert!(decode_envelope(b"junk").is_err());
    assert!(decode_envelope(b"").is_err());
    assert!(decode_envelope(b"{\"id\":\"x\"}").is_err());
}

#[test]
fn decode_rejects_trailing_bytes() {
    let event =
        Event::new("i".to_string(), "e".to_string(), "t".to_string(), vec![1], 5).unwrap();
    let mut bytes = encode_envelope(&event);
    bytes.push(b' ');
    assert!(decode_envelope(&bytes).is_err());
}

#[test]
fn decode_rejects_non_canonical_numbers() {
    // leading zero in a payload byte value
    let bytes =
        "{\"id\":\"i\",\"entity_id\":\"e\",\"topic\":\"t\",\"payload\":[01],\"timestamp\":0}";
    assert!(decode_envelope(bytes.as_bytes()).is_err());
    // byte value out of range
    let bytes =
        "{\"id\":\"i\",\"entity_id\":\"e\",\"topic\":\"t\",\"payload\":[256],\"timestamp\":0}";
    assert!(decode_envelope(bytes.as_bytes()).is_err());
}

#[test]
fn decode_accepts_canonical_text() {
    let bytes =
        "{\"id\":\"i\",\"entity_id\":\"e\",\"topic\":\"order.created\",\"payload\":[1,2],\"timestamp\":-7}";
    let event = decode_envelope(bytes.as_bytes()).unwrap();
    assert_eq!(event.id(), "i");
    assert_eq!(event.entity_id(), "e");
    assert_eq!(event.topic(), "order.created");
    assert_eq!(event.payload(), &[1, 2]);
    assert_eq!(event.timestamp(), -7);
}

#[test]
fn distributed_delivery_by_subject() {
    // an event published on the broker goes out on a subject equal to its
    // topic; simulate one broker round-trip and the broker-side subject
    // filters of three subscribers
    let event = Event::create("order#01".to_string(), "order.created".to_string(), &1).unwrap();
    let subject = event.topic().to_string();
    let wire = encode_envelope(&event);

    let delivered = decode_envelope(&wire).unwrap();
    assert_eq!(delivered.entity_id(), "order#01");

    assert!(subject_has_topic("order.created", &subject));
    assert!(subject_has_topic("order.*", &subject));
    assert!(!subject_has_topic("invoice.*", &subject));
}

#[test]
fn decode_rejects_empty_fields() {
    // canonical in shape, but the id is empty, so the event is invalid
    let bytes =
        "{\"id\":\"\",\"entity_id\":\"e\",\"topic\":\"t\",\"payload\":[1],\"timestamp\":0}";
    let res = decode_envelope(bytes.as_bytes());
    assert!(matches!(res, Err(eventbus::events::Error::InvalidEvent)));
}
