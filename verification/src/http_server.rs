//! The HTTP server for the files of torrents.
pub mod content_range;
pub mod laws;
pub mod range_conv;
pub mod range_header;
pub mod range_laws;
pub mod service;
pub mod content_body;
