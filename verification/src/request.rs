//! The two places of a request that hold urlencoded data, and the decoding
//! of what is found there.

use crate::decode::{accepted, decode, decoded_pairs, rejected_with};
use crate::error::{EncodingCause, UrlDecodingError};
use crate::query_map::{combine_duplicates, first_seen, grouped, QueryMap};
use vstd::prelude::*;
use vstd::string::StringSliceAdditionalSpecFns;
use vstd::utf8::encode_utf8_valid_utf8;

verus! {

/// Decodes the bytes of a query string or form body into a map from each
/// name to the values given for it.
pub fn parse(raw: &[u8]) -> (r: Result<QueryMap, UrlDecodingError>)
    ensures
        r is Ok <==> accepted(raw@),
        match r {
            Ok(m) => m@ == grouped(decoded_pairs(raw@)) && m.key_order() == first_seen(
                decoded_pairs(raw@),
            ),
            Err(e) => rejected_with(raw@, e),
        },
{
    match decode(raw) {
        Ok(pairs) => Ok(combine_duplicates(pairs)),
        Err(e) => Err(e),
    }
}

/// Parse a urlencoded string into a map from each name to its values.
pub fn create_param_hashmap(data: &str) -> (r: Result<QueryMap, UrlDecodingError>)
    ensures
        r is Ok <==> accepted(data.spec_bytes()),
        match r {
            Ok(m) => m@ == grouped(decoded_pairs(data.spec_bytes())) && m.key_order()
                == first_seen(decoded_pairs(data.spec_bytes())),
            Err(e) => rejected_with(data.spec_bytes(), e) && !(e matches
                UrlDecodingError::EncodingError(EncodingCause::InvalidUtf8(_))),
        },
{
    proof {
        encode_utf8_valid_utf8(data@);
    }
    parse(data.as_bytes())
}

/// The query string of a request's URL as the place to decode.
pub struct UrlEncodedQuery;

/// The body of a request as the place to decode.
pub struct UrlEncodedBody;

impl UrlEncodedQuery {
    /// Decodes the query string of a URL, given without its `?`. A URL
    /// without a query string is treated as one with an empty query string.
    pub fn eval(query: Option<&str>) -> (r: Result<QueryMap, UrlDecodingError>)
        ensures
            query is None ==> r == Err::<QueryMap, UrlDecodingError>(UrlDecodingError::EmptyQuery),
            query matches Some(data) ==> {
                &&& r is Ok <==> accepted(data.spec_bytes())
                &&& match r {
                    Ok(m) => m@ == grouped(decoded_pairs(data.spec_bytes())) && m.key_order()
                        == first_seen(decoded_pairs(data.spec_bytes())),
                    Err(e) => rejected_with(data.spec_bytes(), e),
                }
            },
    {
        match query {
            Some(data) => create_param_hashmap(data),
            None => Err(UrlDecodingError::EmptyQuery),
        }
    }
}

impl UrlEncodedBody {
    /// Decodes a request body, read in full.
    pub fn eval(body: &[u8]) -> (r: Result<QueryMap, UrlDecodingError>)
        ensures
            r is Ok <==> accepted(body@),
            match r {
                Ok(m) => m@ == grouped(decoded_pairs(body@)) && m.key_order() == first_seen(
                    decoded_pairs(body@),
                ),
                Err(e) => rejected_with(body@, e),
            },
    {
        parse(body)
    }
}

} // verus!
