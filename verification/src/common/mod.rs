//! What the daemon and the router share.

pub mod bytes;
pub mod dict;
pub mod ifaces;
pub mod ip;
pub mod json;
pub mod logfmt;
pub mod proto;
pub mod quote;
pub mod show;
pub mod text;
pub mod text_laws;
pub mod top;
