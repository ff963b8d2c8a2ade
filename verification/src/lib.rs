//! Detection, anonymization and reversible tokenization of personal data.
pub mod text;
pub mod checksum;
pub mod clock;
pub mod order;
pub mod vault;
pub mod entity;
pub mod anonymizer;
pub mod analyzer;
pub mod recognizer;
pub mod restore;
pub mod laws;
