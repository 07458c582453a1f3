//! Free-form key/value diagnostics attached to errors. The values are JSON
//! trees produced by serde, and the map itself is specified at its
//! interface, over its view.

use std::collections::HashMap;
use vstd::prelude::*;

use crate::json::to_json_value;

verus! {

/// A bag of named JSON values. Entries whose value cannot be serialized
/// are silently dropped; a later entry under the same key replaces an
/// earlier one.
#[derive(Debug, Clone, PartialEq)]
pub struct Metadata {
    metadata: HashMap<String, serde_json::Value>,
}

/// Relies on `HashMap::insert`, with std's `String` keys whose equality
/// and hash are the standard well-behaved ones: adds the entry, replacing
/// any entry under an equal key, and touches no other entry.
#[verifier::external_body]
fn map_insert(m: &mut HashMap<String, serde_json::Value>, k: String, v: serde_json::Value)
    ensures
        final(m)@ == old(m)@.insert(k, v),
{
    m.insert(k, v);
}

/// Relies on `HashMap::extend`, with std's `String` keys whose equality
/// and hash are the standard well-behaved ones: adds every entry of `src`,
/// overwriting entries whose key is already present.
#[verifier::external_body]
fn map_extend(dst: &mut HashMap<String, serde_json::Value>, src: HashMap<String, serde_json::Value>)
    ensures
        final(dst)@ == old(dst)@.union_prefer_right(src@),
{
    dst.extend(src)
}

impl Metadata {
    /// The entries, as a map from key to JSON value.
    pub closed spec fn spec_values(&self) -> Map<String, serde_json::Value> {
        self.metadata@
    }

    /// An empty bag.
    pub fn new() -> (r: Metadata)
        ensures
            r.spec_values() == Map::<String, serde_json::Value>::empty(),
    {
        Metadata { metadata: HashMap::new() }
    }

    /// A bag holding at most the one given entry; the entry is dropped if
    /// its value does not serialize.
    pub fn with<V: serde::Serialize>(key: String, value: V) -> (r: Metadata)
        ensures
            r.spec_values() == Map::<String, serde_json::Value>::empty() || (exists|
                v: serde_json::Value,
            |
                r.spec_values() == Map::<String, serde_json::Value>::empty().insert(key, v)),
    {
        Metadata::new().and(key, value)
    }

    /// Adds one entry under `key`, replacing any prior entry under that
    /// key and touching no other; a value that does not serialize leaves
    /// the bag unchanged.
    pub fn and<V: serde::Serialize>(self, key: String, value: V) -> (r: Metadata)
        ensures
            r.spec_values() == self.spec_values() || (exists|v: serde_json::Value|
                r.spec_values() == self.spec_values().insert(key, v)),
    {
        let ghost orig = self.spec_values();
        let mut m = self;
        match to_json_value(&value) {
            Ok(v) => {
                let ghost witness = v;
                map_insert(&mut m.metadata, key, v);
                proof {
                    assert(m.spec_values() == orig.insert(key, witness));
                }
            },
            Err(_) => {},
        }
        m
    }

    /// Adds every entry of `other`: the result is the key-wise union of
    /// the two bags, with `other`'s value winning on a shared key.
    pub fn merge(self, other: Metadata) -> (r: Metadata)
        ensures
            r.spec_values() == self.spec_values().union_prefer_right(other.spec_values()),
    {
        let mut m = self;
        map_extend(&mut m.metadata, other.metadata);
        m
    }

    /// The entries.
    pub fn values(&self) -> (r: &HashMap<String, serde_json::Value>)
        ensures
            r@ == self.spec_values(),
    {
        &self.metadata
    }
}

} // verus!
