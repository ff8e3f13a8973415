//! Translation of collected trace spans into the Jaeger batch model and
//! serialization of that model under the two thrift wire protocols
//! (compact and binary), ready to be sent to an agent in one datagram.

pub mod agent;
pub mod decode;
pub mod errors;
pub mod jaeger;
pub mod report;
pub mod translate;
pub mod wire;
