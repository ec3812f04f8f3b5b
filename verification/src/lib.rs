//! Decoding of `application/x-www-form-urlencoded` data, as found in URL query
//! strings and in form bodies of HTTP requests.
//!
//! The input is split into `name=value` segments, each name and value is
//! percent-decoded and read as UTF-8 text, and the values are grouped
//! by name, in the order in which they arrived.

pub mod decode;
pub mod error;
pub mod escape;
pub mod query_map;
pub mod request;
pub mod text;

pub use decode::decode;
pub use error::UrlDecodingError::{EmptyQuery, EncodingError};
pub use error::{EncodingCause, UrlDecodingError, Utf8Fault};
pub use query_map::{combine_duplicates, QueryMap};
pub use request::{create_param_hashmap, parse, UrlEncodedBody, UrlEncodedQuery};
