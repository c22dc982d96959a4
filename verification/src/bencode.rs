//! The bencoding codec: value model, flat element streams, parser and
//! encoder, and the capability layer behind the generic serialization
//! adapter.

pub mod decode;
pub mod dict;
pub mod encode;
pub mod laws;
pub mod model;
pub mod repr;
pub mod ser;
pub mod unique;

pub use decode::{parse, Parser};
pub use dict::OrderedMap;
pub use encode::encode;
pub use repr::{Element, Elements, Error, Value};
