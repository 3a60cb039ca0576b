//! Byte sequences written as hexadecimal text, with an explicit byte order.
pub mod hex;
pub mod laws;
