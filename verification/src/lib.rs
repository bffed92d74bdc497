//! A small directory-serving web server: the request handling, listing
//! rendering, argument parsing and response formatting, verified.

pub mod text;
pub mod decimal;
pub mod urlcodec;
pub mod http;
pub mod query;
pub mod args;
pub mod paths;
pub mod listing;
pub mod server;
pub mod archive;
pub mod targz;
