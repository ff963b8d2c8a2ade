//! Entity types and detection results.
use vstd::prelude::*;

use crate::text::{byte_range, is_byte_range, slice_bytes, to_uppercase, unicode_uppercase};

verus! {

/// The name of a kind of personal data, such as `EMAIL_ADDRESS`, always in
/// uppercase.
#[derive(Debug)]
pub struct EntityType(pub String);

impl EntityType {
    /// The entity type of the given name, uppercased.
    pub fn new(name: &str) -> (res: Self)
        ensures
            res.0@ == unicode_uppercase(name@),
    {
        EntityType(to_uppercase(name))
    }

    /// The name of the entity type.
    pub fn as_str(&self) -> (res: &str)
        ensures
            res@ == self.0@,
    {
        self.0.as_str()
    }
}

/// One detection: an entity type found at the byte range `start..end` of a
/// text. `score` is the detection's confidence, held as an order key: a
/// larger key stands for a higher confidence.
#[derive(Debug)]
pub struct RecognizerResult {
    pub entity_type: EntityType,
    pub start: usize,
    pub end: usize,
    pub score: u64,
    pub recognizer_name: Option<String>,
}

impl RecognizerResult {
    /// The detected text, `&input[start..end]`.
    pub fn text<'a>(&self, input: &'a str) -> (res: &'a str)
        requires
            is_byte_range(input@, self.start as int, self.end as int),
        ensures
            res@ == byte_range(input@, self.start as int, self.end as int),
    {
        slice_bytes(input, self.start, self.end)
    }

    /// Whether the two byte ranges share at least one byte.
    pub fn overlaps(&self, other: &RecognizerResult) -> (res: bool)
        ensures
            res == (self.start < other.end && other.start < self.end),
    {
        self.start < other.end && other.start < self.end
    }
}

/// Names of common entity types.
pub const EMAIL_ADDRESS: &'static str = "EMAIL_ADDRESS";
pub const PHONE_NUMBER: &'static str = "PHONE_NUMBER";
pub const CREDIT_CARD: &'static str = "CREDIT_CARD";
pub const CRYPTO: &'static str = "CRYPTO";
pub const IP_ADDRESS: &'static str = "IP_ADDRESS";
pub const MAC_ADDRESS: &'static str = "MAC_ADDRESS";
pub const IBAN_CODE: &'static str = "IBAN_CODE";
pub const URL: &'static str = "URL";
pub const UUID: &'static str = "UUID";
pub const US_SSN: &'static str = "US_SSN";
pub const US_ITIN: &'static str = "US_ITIN";
pub const CN_ID_CARD: &'static str = "CN_ID_CARD";
pub const CN_PHONE: &'static str = "CN_PHONE";
pub const UK_NHS: &'static str = "UK_NHS";
pub const UK_NINO: &'static str = "UK_NINO";

} // verus!
