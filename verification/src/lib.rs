//! A client for the Android Debug Bridge wire protocol over generic byte streams.
pub mod error;
pub mod models;
pub mod shell;
pub mod stream_device;
pub mod stream_server;
pub mod sync;
pub mod stream_transport;
pub mod wire;

pub use error::{IoError, IoErrorKind, Result, RustADBError};
