//! Encoding of calls to on-chain functions of the Move VM.
//!
//! A request names a function by a descriptor, `<address>::<module>::<function>`.
//! The descriptor is parsed into a reference ([`reference`]), the interface
//! of the module is read from the module's bytes ([`abi`]), the literals of
//! the call are checked against the function's signature and coerced to
//! their binary form ([`codec`], [`literal`], [`type_text`]), and reference
//! and arguments are assembled into one byte string, the call payload
//! ([`call`]). [`fn_call`] runs these steps one after the other.
//!
//! The binary layout is held by three modules: [`varint`] for lengths and
//! counts, [`wire`] for integers and byte strings, and [`type_tag`] for
//! types. What holds of the whole is proved in [`laws`] and [`round_trip`].

pub mod abi;
pub mod address;
pub mod api;
pub mod ascii;
pub mod bytes;
pub mod call;
pub mod codec;
pub mod currency;
pub mod fn_call;
pub mod hex;
pub mod laws;
pub mod list;
pub mod literal;
pub mod reference;
pub mod round_trip;
pub mod type_tag;
pub mod type_text;
pub mod varint;
pub mod wire;
