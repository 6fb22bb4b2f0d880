//! A small codec layer that converts between an in-memory typed data model
//! and a textual markup representation, preserving exact round-trip fidelity.
//!
//! The crate has three parts:
//! - scalar coercion: parsing typed scalar values (integers, `bool`, `char`,
//!   and the closed [`byte_enum::ByteEnum`] discriminant enumeration) from
//!   markup attribute text;
//! - a field adapter that dispatches between an already-typed value and a
//!   residual attribute string;
//! - the wire codec for the `<root byte=".." other=".."/>` element, with
//!   proved round-trip identity.

pub mod adapter;
pub mod byte_enum;
pub mod scalar;
pub mod xml;
