use eventbus::models::Error;
use eventbus::models::Path;
use eventbus::models::StrId;
use eventbus::models::Timestamps;
use eventbus::models::Version;
use eventbus::models::VersionError;

#[test]
fn new_path() {
    // Simple
    let path = Path::new("my.path".to_string(), ".".to_string(), Vec::new()).unwrap();
    assert_eq!(path.parts(), &["my", "path"]);
    assert_eq!(path.separator(), ".");
    assert_eq!(path.wildcards(), &[] as &[String; 0]);
    assert_eq!(path.to_string(), "my.path");

    // With wildcards
    let path = Path::new(
        "my.path".to_string(),
        ".".to_string(),
        vec!["*".to_string(), ">".to_string()],
    )
    .unwrap();
    assert_eq!(path.parts(), &["my", "path"]);
    assert_eq!(path.separator(), ".");
    assert_eq!(path.wildcards(), &["*", ">"]);
    assert_eq!(path.to_string(), "my.path");

    // Single partt
    let path = Path::new(
        "my_path".to_string(),
        "#".to_string(),
        vec!["*".to_string(), ">".to_string()],
    )
    .unwrap();
    assert_eq!(path.parts(), &["my_path"]);
    assert_eq!(path.separator(), "#");
    assert_eq!(path.wildcards(), &["*", ">"]);
    assert_eq!(path.to_string(), "my_path");

    // Invalid character
    assert!(Path::new("my.p@th".to_string(), ".".to_string(), Vec::new()).is_err())
}

#[test]
fn equals() {
    let path1 = Path::new("one.two.three".to_string(), ".".to_string(), Vec::new()).unwrap();
    let path2 = Path::new("one.three.two".to_string(), ".".to_string(), Vec::new()).unwrap();
    let path3 = Path::new("two.one.three".to_string(), ".".to_string(), Vec::new()).unwrap();

    assert!(path1 == path1);
    assert!(path1 != path2);
    assert!(path2 != path3);
}

#[test]
fn path_lowercases_parts() {
    let path = Path::new("My.PATH".to_string(), ".".to_string(), Vec::new()).unwrap();
    assert_eq!(path.parts(), &["my", "path"]);
}

#[test]
fn path_error_carries_code() {
    let err = Path::new("a".to_string(), ".".to_string(), Vec::new()).unwrap_err();
    assert_eq!(err.code(), "path.invalid");
    assert_eq!(err.message(), "path part has invalid characters");
}

#[test]
fn version_new_validates() {
    assert!(matches!(Version::new(0), Err(VersionError::Invalid)));
    assert!(matches!(Version::new(-5), Err(VersionError::Invalid)));
    let v = Version::new(3).unwrap();
    assert_eq!(v.value(), 3);
}

#[test]
fn version_incr_only_once() {
    let v = Version::new(3).unwrap();
    let v2 = v.incr();
    assert_eq!(v2.value(), 4);
    let v3 = v2.incr();
    assert_eq!(v3.value(), 4);
    assert_eq!(Version::init_version().value(), 1);
    assert_eq!(Version::init_version().incr().value(), 1);
}

#[test]
fn str_id_validates() {
    assert!(matches!(StrId::new(String::new()), Err(Error::InvalidId(_))));
    let id = StrId::new("user#1".to_string()).unwrap();
    assert_eq!(id.value(), "user#1");
    assert_eq!(id.to_string(), "user#1");
}

#[test]
fn str_id_generate_uuid() {
    let id = StrId::generate_uuid().unwrap();
    assert_eq!(id.value().len(), 36);
    let other = StrId::generate_uuid().unwrap();
    assert_ne!(id.value(), other.value());
}

#[test]
fn str_id_generate_slug() {
    let id = StrId::generate_slug("Hello World".to_string()).unwrap();
    assert_eq!(id.value(), "hello-world");
    assert!(StrId::generate_slug("!!!".to_string()).is_err());
}

#[test]
fn timestamps_validate_order() {
    assert!(Timestamps::new(10, 20, None).is_ok());
    assert!(matches!(Timestamps::new(20, 10, None), Err(Error::InvalidTimestamps)));
    assert!(matches!(Timestamps::new(10, 20, Some(15)), Err(Error::InvalidTimestamps)));
    assert!(matches!(Timestamps::new(10, 20, Some(5)), Err(Error::InvalidTimestamps)));
    let t = Timestamps::new(10, 20, Some(30)).unwrap();
    assert_eq!(t.created_at(), 10);
    assert_eq!(t.updated_at(), 20);
    assert_eq!(t.deleted_at(), Some(30));
}

#[test]
fn timestamps_create_update_delete() {
    let t = Timestamps::create();
    assert_eq!(t.created_at(), t.updated_at());
    assert!(t.deleted_at().is_none());
    let u = t.with_updated_at(t.created_at() + 5);
    assert_eq!(u.created_at(), t.created_at());
    assert_eq!(u.updated_at(), t.created_at() + 5);
    let d = u.with_deleted_at(t.created_at() + 9);
    assert_eq!(d.deleted_at(), Some(t.created_at() + 9));
    assert_eq!(d.updated_at(), u.updated_at());
    let d2 = u.delete();
    assert!(d2.deleted_at().is_some());
    assert_eq!(d2.created_at(), u.created_at());
}

#[test]
fn path_multichar_separator() {
    let path = Path::new("aa::bb".to_string(), "::".to_string(), Vec::new()).unwrap();
    assert_eq!(path.parts(), &["aa", "bb"]);
    assert_eq!(path.to_string(), "aa::bb");
}

#[test]
fn path_rejects_empty_input() {
    assert!(Path::new(String::new(), ".".to_string(), Vec::new()).is_err());
}

#[test]
fn path_wildcard_tokens_are_parts() {
    let path = Path::new(
        "orders.*".to_string(),
        ".".to_string(),
        vec!["*".to_string()],
    )
    .unwrap();
    assert_eq!(path.parts(), &["orders", "*"]);
    assert!(Path::new("orders.*".to_string(), ".".to_string(), Vec::new()).is_err());
}
