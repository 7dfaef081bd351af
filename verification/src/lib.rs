//! A column transform framework over chunked nullable string columns:
//! a native dictionary-lookup mapper and a host-callback mapper with
//! defined marshaling and failure semantics.

pub mod callback;
pub mod column;
pub mod dict;
