//! URL component handling: percent-encoding, dot-segment removal, path
//! validation, URL parts and an ordered multi-valued query-parameter map.

pub mod err;
pub mod text;
pub mod urlparse;
pub mod utils;
pub mod urls;
pub mod parts;
