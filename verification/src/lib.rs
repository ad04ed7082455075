//! The logic of a BitTorrent client with a built-in HTTP server for the files of its torrents.
pub mod base64_text;
pub mod disk;
pub mod error;
pub mod hash;
pub mod http_server;
pub mod magnet;
pub mod magnet_laws;
pub mod metainfo;
pub mod order;
pub mod paths;
pub mod peer;
pub mod percent;
pub mod tcp_wire;
pub mod text;
pub mod text_laws;
pub mod torrent;
pub mod uri_path;
