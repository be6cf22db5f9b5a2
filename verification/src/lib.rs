//! The logic of a small file downloader: how a file is cut into byte ranges,
//! how the ranges are fetched and retried, what is asked of a server and how
//! its answers are judged, and how the observers of a download are told.
//!
//! Nothing here opens a connection or a file. The functions of this crate take
//! what came from the outside as plain values and say what to do next.
pub mod address;
pub mod chunks;
pub mod cmd;
pub mod course;
pub mod fetch;
pub mod ftp;
pub mod headers;
pub mod hooks;
pub mod http;
pub mod numbers;
pub mod progress;
