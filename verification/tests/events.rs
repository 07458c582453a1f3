use std::collections::HashMap;
use std::sync::Arc;
use std::sync::Mutex;

use eventbus::events::collector::Publishable;
use eventbus::events::event_collector::Publishable as EventCollectorPublishable;
use eventbus::events::Collector;
use eventbus::events::Event;
use eventbus::events::EventCollector;
use eventbus::events::EventError;
use eventbus::events::Handler;
use eventbus::events::LocalEventBus;
use eventbus::events::subject_has_topic;

#[derive(Debug)]
struct Data {
    msg: String,
}

impl serde::Serialize for Data {
    fn serialize<S: serde::Serializer>(&self, s: S) -> Result<S::Ok, S::Error> {
        let mut m = HashMap::new();
        m.insert("msg", &self.msg);
        serde::Serialize::serialize(&m, s)
    }
}

impl<'de> serde::Deserialize<'de> for Data {
    fn deserialize<D: serde::Deserializer<'de>>(d: D) -> Result<Data, D::Error> {
        let m = HashMap::<String, String>::deserialize(d)?;
        match m.get("msg") {
            Some(v) => Ok(Data { msg: v.clone() }),
            None => Err(serde::de::Error::missing_field("msg")),
        }
    }
}

#[test]
fn create() {
    let res = Event::create(
        "entity#01".to_string(),
        "topic.code".to_string(),
        &Data { msg: "Hello World".to_string() },
    );
    assert!(res.is_ok());

    let event = res.unwrap();
    assert_eq!(event.entity_id(), "entity#01");
    assert_eq!(event.topic(), "topic.code");
    assert!(event.payload().len() > 0);
}

#[test]
fn payload_serialization_and_deserialization() {
    let event = Event::create(
        "entity#01".to_string(),
        "topic.code".to_string(),
        &Data { msg: "Hello World".to_string() },
    )
    .unwrap();

    let res = event.deserialize_payload();
    assert!(res.is_ok());

    let data: Data = res.unwrap();
    assert_eq!(data.msg, "Hello World");
}

#[test]
fn event_new_keeps_fields() {
    let event = Event::new(
        "id#1".to_string(),
        "entity#1".to_string(),
        "order.created".to_string(),
        vec![1, 2, 3],
        77,
    )
    .unwrap();
    assert_eq!(event.id(), "id#1");
    assert_eq!(event.entity_id(), "entity#1");
    assert_eq!(event.topic(), "order.created");
    assert_eq!(event.payload(), &[1, 2, 3]);
    assert_eq!(event.timestamp(), 77);
}

#[test]
fn event_new_rejects_empty_fields() {
    let err = Event::new(String::new(), "e".to_string(), "t".to_string(), vec![1], 0);
    assert!(matches!(err, Err(EventError::Invalid)));
    let err = Event::new("i".to_string(), String::new(), "t".to_string(), vec![1], 0);
    assert!(matches!(err, Err(EventError::Invalid)));
    let err = Event::new("i".to_string(), "e".to_string(), String::new(), vec![1], 0);
    assert!(matches!(err, Err(EventError::Invalid)));
    let err = Event::new("i".to_string(), "e".to_string(), "t".to_string(), Vec::new(), 0);
    assert!(matches!(err, Err(EventError::Invalid)));
}

#[test]
fn create_rejects_empty_entity_or_topic() {
    let err = Event::create(String::new(), "topic.code".to_string(), &1);
    assert!(matches!(err, Err(EventError::Invalid)));
    let err = Event::create("entity#01".to_string(), String::new(), &1);
    assert!(matches!(err, Err(EventError::Invalid)));
}

struct SomethingHappened {
    name: String,
}

impl serde::Serialize for SomethingHappened {
    fn serialize<S: serde::Serializer>(&self, s: S) -> Result<S::Ok, S::Error> {
        let mut m = HashMap::new();
        m.insert("name", &self.name);
        serde::Serialize::serialize(&m, s)
    }
}

impl Publishable for SomethingHappened {
    fn entity_id(&self) -> &str {
        "something-happened#01"
    }

    fn topic(&self) -> &str {
        "something.happened"
    }
}

impl EventCollectorPublishable for SomethingHappened {
    fn entity_id(&self) -> &str {
        "something-happened#01"
    }

    fn topic(&self) -> &str {
        "something.happened"
    }
}

#[test]
fn collector_get_all_events() {
    let mut collector = Collector::create();

    collector.record(SomethingHappened { name: "hello".to_string() }).unwrap();

    assert_eq!(collector.all().len(), 1);

    let events = collector.drain();
    assert_eq!(events.len(), 1);
    assert_eq!(events[0].entity_id(), "something-happened#01");
    assert_eq!(events[0].topic(), "something.happened");

    assert!(collector.drain().is_empty());
}

#[test]
fn event_collector_get_all_events() {
    let mut collector = EventCollector::create();

    collector.record(SomethingHappened { name: "hello".to_string() }).unwrap();

    assert_eq!(collector.all().len(), 1);

    let events = collector.drain();
    assert_eq!(events.len(), 1);
    assert_eq!(events[0].entity_id(), "something-happened#01");
    assert_eq!(events[0].topic(), "something.happened");

    assert!(collector.drain().is_empty());
}

#[test]
fn collector_keeps_recording_order() {
    let mut collector = Collector::create();
    collector.record(SomethingHappened { name: "one".to_string() }).unwrap();
    collector.record(SomethingHappened { name: "two".to_string() }).unwrap();
    collector.record(SomethingHappened { name: "three".to_string() }).unwrap();
    let events = collector.drain();
    assert_eq!(events.len(), 3);
    assert!(collector.all().is_empty());
    assert!(collector.drain().is_empty());
}

#[test]
fn topic_matching() {
    assert!(subject_has_topic("topic.*", "topic.code"));
    assert!(subject_has_topic("topic.*", "topic.other"));
    assert!(!subject_has_topic("topic.*", "topic.code.extra"));
    assert!(!subject_has_topic("topic.*", "other.code"));
    assert!(subject_has_topic("topic.code", "topic.code"));
    assert!(subject_has_topic("with.*.wildcards", "with.*.wildcards"));
}

#[test]
fn topic_matching_is_case_insensitive() {
    assert!(subject_has_topic("TOPIC.*", "topic.code"));
    assert!(subject_has_topic("topic.code", "Topic.CODE"));
}

#[derive(Clone)]
struct Counter {
    count: Arc<Mutex<i64>>,
}

impl Counter {
    fn new() -> Counter {
        Counter { count: Arc::new(Mutex::new(0)) }
    }
}

impl Handler for Counter {
    fn handle(&self, event: &Event) -> Result<(), EventError> {
        let incr: i64 = event.deserialize_payload().unwrap();

        let mut count = self.count.lock().unwrap();
        *count += incr;

        Ok(())
    }
}

#[test]
fn subscribe_and_publish() {
    let mut event_bus = LocalEventBus::new();
    let counter = Counter::new();

    // Subscriptions
    let res = event_bus.subscribe("topic.*", counter.clone());
    assert!(!res.is_err());

    let res = event_bus.subscribe("topic.*", counter.clone());
    assert!(!res.is_err());

    // Publish
    let event = Event::create("entity#01".to_string(), "topic.code".to_string(), &1).unwrap();

    let res = event_bus.publish(&[event]);
    assert!(!res.is_err());

    assert_eq!(*counter.count.lock().unwrap(), 2);

    let event = Event::create("entity#02".to_string(), "topic.code".to_string(), &2).unwrap();

    let res = event_bus.publish(&[event]);
    assert!(!res.is_err());

    assert_eq!(*counter.count.lock().unwrap(), 6);
}

#[test]
fn two_publishes_accumulate() {
    let mut event_bus = LocalEventBus::new();
    let counter = Counter::new();
    event_bus.subscribe("increment.*", counter.clone()).unwrap();

    let event = Event::create("entity#01".to_string(), "increment.code".to_string(), &1).unwrap();
    let other = Event::create("entity#01".to_string(), "increment.code".to_string(), &1).unwrap();

    event_bus.publish(&[event]).unwrap();
    event_bus.publish(&[other]).unwrap();

    assert_eq!(*counter.count.lock().unwrap(), 2);
}

#[test]
fn publish_skips_unmatched_subscriptions() {
    let mut event_bus = LocalEventBus::new();
    let counter = Counter::new();
    event_bus.subscribe("invoice.*", counter.clone()).unwrap();

    let event = Event::create("entity#01".to_string(), "order.created".to_string(), &5).unwrap();
    event_bus.publish(&[event]).unwrap();

    assert_eq!(*counter.count.lock().unwrap(), 0);
}

struct AlwaysFails;

impl Handler for AlwaysFails {
    fn handle(&self, _event: &Event) -> Result<(), EventError> {
        Err(EventError::Internal)
    }
}

#[test]
fn publish_returns_first_handler_failure() {
    let mut event_bus = LocalEventBus::new();
    event_bus.subscribe("order.*", AlwaysFails).unwrap();
    let event = Event::create("entity#01".to_string(), "order.created".to_string(), &5).unwrap();
    let res = event_bus.publish(&[event]);
    assert!(matches!(res, Err(EventError::Internal)));
}

#[test]
fn deserialize_payload_reports_decode_failure() {
    let event = Event::create("entity#01".to_string(), "topic.code".to_string(), &1).unwrap();
    let res: Result<Data, EventError> = event.deserialize_payload();
    assert!(matches!(res, Err(EventError::PayloadDeserialization)));
}
