//! gimbap: HTTP request parsing and response building, with verified contracts.
pub mod text;
pub mod bindings;
pub mod map;
pub mod error;
pub mod common;
pub mod response;
pub mod request;
