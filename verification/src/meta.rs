//! The metadata attached to archive items.

use vstd::prelude::*;
use crate::bindings::{
    json_object_fields, json_object_insert, json_object_new, since_epoch, system_now,
};

verus! {

/// A JSON object of custom metadata (`serde_json::Map`).  Its fields, as
/// contracts speak of them, are `json_object_fields` of it.
pub type RatMetaObject = serde_json::Map<String, serde_json::Value>;

/// Metadata every item carries.
#[derive(Debug)]
pub struct RatMetaBase {
    /// When the metadata was made, in whole seconds since the Unix epoch.
    pub created_at: u64,
}

/// An item's metadata: the common part and the caller's own part.
#[derive(Debug)]
pub struct RatMeta<TCustom> {
    pub base: RatMetaBase,
    pub custom: TCustom,
}

/// A small fixed piece of metadata.
#[derive(Debug)]
pub struct MetadataTest {
    pub text: String,
    pub hour: String,
}

impl RatMetaBase {
    /// Metadata stamped with the current time: the whole seconds since the
    /// Unix epoch of the clock's reading, as `from_epoch_reading` keeps
    /// them (0 when the clock reads a time before the epoch).
    pub fn new() -> (res: Self) {
        Self::from_epoch_reading(since_epoch(system_now()))
    }

    /// Metadata stamped with a clock reading since the Unix epoch, given as
    /// whole seconds and the nanoseconds beyond them: it keeps the whole
    /// seconds, whatever the nanoseconds; a reading before the epoch
    /// (`None`) counts as 0.
    pub fn from_epoch_reading(reading: Option<(u64, u32)>) -> (res: Self)
        ensures
            res.created_at == match reading {
                Some(d) => d.0,
                None => 0,
            },
    {
        let secs = match reading {
            Some((s, _)) => Some(s),
            None => None,
        };
        Self::from_epoch_secs(secs)
    }

    /// Metadata stamped with a clock reading in seconds since the Unix
    /// epoch; a reading before the epoch (`None`) counts as 0.
    pub fn from_epoch_secs(secs: Option<u64>) -> (res: Self)
        ensures
            res.created_at == match secs {
                Some(s) => s,
                None => 0,
            },
    {
        let created_at = match secs {
            Some(s) => s,
            None => 0,
        };
        RatMetaBase { created_at }
    }
}

impl<TCustom> RatMeta<TCustom> {
    /// Metadata stamped with the current time, holding `custom`.
    pub fn new(custom: TCustom) -> (res: Self)
        ensures
            res.custom == custom,
    {
        RatMeta { base: RatMetaBase::new(), custom }
    }
}

impl RatMeta<RatMetaObject> {
    /// Metadata stamped with the current time, with an empty JSON object.
    pub fn new_object() -> (res: Self)
        ensures
            json_object_fields(res.custom) == Map::<Seq<char>, serde_json::Value>::empty(),
    {
        Self::new(json_object_new())
    }

    /// Sets the custom field `key` to `value`, replacing any value it had.
    pub fn insert_custom(&mut self, key: String, value: serde_json::Value)
        ensures
            json_object_fields(final(self).custom) == json_object_fields(old(self).custom).insert(
                key@,
                value,
            ),
            final(self).base == old(self).base,
    {
        json_object_insert(&mut self.custom, key, value);
    }
}

impl MetadataTest {
    /// The metadata `text: "Hello, world!"`, `hour: "12:00"`.
    pub fn new() -> (res: Self)
        ensures
            res.text@ == "Hello, world!"@,
            res.hour@ == "12:00"@,
    {
        MetadataTest { text: "Hello, world!".to_owned(), hour: "12:00".to_owned() }
    }
}

} // verus!
