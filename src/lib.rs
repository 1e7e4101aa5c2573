pub mod domain_name;
pub mod util;
pub mod records;
pub mod decode;
pub mod cache;
pub mod dns;
pub mod round_trip;
