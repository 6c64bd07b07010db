//! Sending a finished snapshot to a remote store.

pub mod blobstore;
pub mod http;
pub mod status;
