//! The BACnet tag-length-value wire format and its primitive values.

pub mod codec;
pub mod number;
pub mod primitive;
pub mod tag;
