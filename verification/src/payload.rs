//! The capability-contract implementations for the built-in payload types.

pub mod collections;
pub mod enums;
pub mod primitive;
pub mod slice;
pub mod smart;
pub mod string;
pub mod tuple;
