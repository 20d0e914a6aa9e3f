// A reverse proxy's core: a store of credential keys that rotates them by least
// recent use and retires them on quota exhaustion, and a classifier that reads the
// outcome of an upstream call from its status and body.

pub mod classify;
pub mod clock;
pub mod error;
pub mod json;
pub mod laws;
pub mod proxy;
pub mod sse;
pub mod store;
pub mod text;

pub use error::ProxyError;
pub use proxy::{ProxyRequest, ProxyResponse, DEFAULT_UPSTREAM};
