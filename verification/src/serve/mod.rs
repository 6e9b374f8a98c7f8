//! The router: which groups serve, where, and what becomes of a request.

pub mod dispatch;
pub mod events;
pub mod groups;
pub mod landing_laws;
pub mod listen;
pub mod mcp;
pub mod net;
pub mod offer_laws;
pub mod poll;
pub mod probe;
pub mod proxy;
pub mod request_laws;
pub mod route_laws;
pub mod shared;
pub mod status_laws;
pub mod stream_laws;
pub mod table;
pub mod tool_laws;
pub mod watch;
pub mod watch_laws;
