use std::collections::HashMap;
use std::io::Error as IoError;
use std::io::ErrorKind as IoErrorKind;

use eventbus::collections::Metadata;
use eventbus::errors::Define;
use eventbus::errors::Error;
use serde_json::Value;

#[derive(PartialEq)]
enum CustomError {
    Internal,
    Validation,
    Application,
}

impl Define for CustomError {
    fn define(&self) -> &str {
        match self {
            CustomError::Internal => "internal",
            CustomError::Validation => "validation",
            CustomError::Application => "application",
        }
    }
}

#[test]
fn create_new_error() {
    let err = Error::new(CustomError::Internal, "internal error".to_string(), None);
    assert_eq!(err.code().to_string(), "internal");
    assert_eq!(err.message(), "internal error");
    assert!(err.cause().is_none());
    assert_eq!(err.metadata().values().len(), 0);
    assert_eq!(err.display_string(), "internal: internal error");
}

#[test]
fn with_metadata() {
    let err = Error::new(
        CustomError::Validation,
        "some error".to_string(),
        Some(
            Metadata::with("key1".to_string(), "value1")
                .and("key2".to_string(), "value2")
                .and("key3".to_string(), "value3"),
        ),
    );
    assert_eq!(err.metadata().values().len(), 3);

    assert_eq!(err.metadata().values()["key1"], Value::String("value1".to_string()));
    assert_eq!(err.metadata().values()["key2"], Value::String("value2".to_string()));
    assert_eq!(err.metadata().values()["key3"], Value::String("value3".to_string()));
}

#[test]
fn wrap_error() {
    let internal_err = Error::new(
        CustomError::Internal,
        "internal".to_string(),
        Some(Metadata::with("internal".to_string(), true)),
    );
    let application_err = Error::wrap(
        CustomError::Application,
        internal_err.clone(),
        "application".to_string(),
        Some(Metadata::with("application".to_string(), true)),
    );

    assert!(application_err.cause().is_some());
    assert_eq!(application_err.cause(), Some(&Box::new(internal_err)));
}

#[test]
fn wrap_raw_error() {
    let raw_err = IoError::new(IoErrorKind::NotFound, "raw_err");
    let err = Error::wrap_raw(CustomError::Internal, &raw_err, "internal error".to_string(), None);

    assert!(err.cause().is_none());
    assert_eq!(err.message(), "internal error (raw_err)");
}

struct Payload {
    msg: String,
}

impl serde::Serialize for Payload {
    fn serialize<S: serde::Serializer>(&self, s: S) -> Result<S::Ok, S::Error> {
        let mut m = HashMap::new();
        m.insert("msg", &self.msg);
        serde::Serialize::serialize(&m, s)
    }
}

#[test]
fn metadata() {
    let m = Metadata::with("prop1".to_string(), "hello world").and("prop2".to_string(), 123).and(
        "prop3".to_string(),
        Payload { msg: "Hello World".to_string() },
    );

    assert_eq!(m.values().get("prop1").unwrap(), &Value::String("hello world".to_string()));
    assert_eq!(m.values().get("prop2").unwrap(), &serde_json::to_value(123).unwrap());
    assert_eq!(
        m.values().get("prop3").unwrap(),
        &serde_json::to_value(Payload { msg: "Hello World".to_string() }).unwrap()
    );
}

#[test]
fn metadata_merge() {
    let m = Metadata::with("a".to_string(), 1).merge(Metadata::with("b".to_string(), 2));
    assert_eq!(m.values().len(), 2);
    assert_eq!(m.values()["a"], serde_json::to_value(1).unwrap());
    assert_eq!(m.values()["b"], serde_json::to_value(2).unwrap());
}
