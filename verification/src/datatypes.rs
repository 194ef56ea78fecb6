//! The data types of the protocol and their codecs.

pub mod position;
pub mod var;
