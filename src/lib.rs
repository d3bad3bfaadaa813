//! A certified, content-addressed asset store: batched chunk uploads, assets with
//! several content encodings, a certification digest over everything served,
//! and a read path with streaming continuation.
pub mod api;
pub mod cert;
pub mod digest;
pub mod http;
pub mod laws;
pub mod model;
pub mod order;
pub mod read;
pub mod state;
pub mod store;
pub mod types;
pub mod url_decode;
pub mod wellformed;
