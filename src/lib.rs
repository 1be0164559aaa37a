//! Building XML-RPC method-call requests: a value model, a streaming
//! encoder with sticky errors, and the request envelope.

pub mod text;
pub mod value;
pub mod sink;
pub mod encoder;
pub mod codec;
pub mod request;
pub mod convert;
pub mod members;
pub mod readback;
