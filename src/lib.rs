//! A STOMP 1.2 frame codec: a schema of client and server frames, a parser
//! that keeps every header and body inside the buffer it was handed, a
//! renderer, and builders that check required headers.
pub mod escape;
pub mod schema;
pub mod text;
pub mod values;
pub mod frame;
pub mod builder;
pub mod laws;
