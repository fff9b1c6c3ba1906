//! A streaming sort-merge join over two key-sorted inputs of Arrow record batches.

pub mod batch;
pub mod buffered;
pub mod error;
pub mod key;
pub mod laws;
pub mod link;
pub mod model;
pub mod order;
pub mod output;
pub mod plan;
pub mod stream;
pub mod view;
