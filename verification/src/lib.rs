//! Verified core of the euv offline cache: HTML and JavaScript resource
//! discovery, path and URL handling, version bookkeeping and response planning.

pub mod text;
pub mod extract;
pub mod paths;
pub mod bridge;
pub mod versions;
pub mod cache;
pub mod snapshot;
pub mod serve;
pub mod lifecycle;
