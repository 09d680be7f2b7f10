//! Typed BACnet datatypes and services with symmetric wire encode/decode.

pub mod datatypes;
pub mod encoding;
pub mod error;
pub mod object;
pub mod property;
pub mod service;

pub use error::EncodingError;
