//! Bytes as UTF-8 text.

use crate::error::Utf8Fault;
use vstd::prelude::*;
use vstd::string::StringSliceAdditionalSpecFns;
use vstd::utf8::{decode_utf8, encode_utf8_decode_utf8, valid_utf8};

verus! {

/// The first `n` bytes of `bytes` are UTF-8, and no longer prefix of `bytes` is.
pub open spec fn is_longest_valid_prefix(bytes: Seq<u8>, n: int) -> bool {
    &&& 0 <= n <= bytes.len()
    &&& valid_utf8(bytes.take(n))
    &&& forall|m: int| n < m <= bytes.len() ==> !valid_utf8(#[trigger] bytes.take(m))
}

/// At most one length is that of the longest valid prefix.
pub proof fn lemma_longest_valid_prefix_unique(bytes: Seq<u8>, n: int, m: int)
    requires
        is_longest_valid_prefix(bytes, n),
        is_longest_valid_prefix(bytes, m),
    ensures
        n == m,
{
    if n < m {
        assert(!valid_utf8(bytes.take(m)));
    }
    if m < n {
        assert(!valid_utf8(bytes.take(n)));
    }
}

/// What `Utf8Error::error_len` gives for the error with which
/// `core::str::from_utf8` refuses `bytes`: the length of the invalid sequence
/// at which they stop being UTF-8, or `None` where they break off within a
/// character.
pub uninterp spec fn utf8_error_len(bytes: Seq<u8>) -> Option<usize>;

/// `fault` is the way in which `bytes` fail to be UTF-8.
pub open spec fn is_utf8_fault(bytes: Seq<u8>, fault: Utf8Fault) -> bool {
    &&& is_longest_valid_prefix(bytes, fault.valid_up_to as int)
    &&& fault.error_len == utf8_error_len(bytes)
    &&& match fault.error_len {
        Some(n) => 1 <= n && fault.valid_up_to + n <= bytes.len(),
        None => 1 <= bytes.len() - fault.valid_up_to <= 3,
    }
}

/// Bytes fail to be UTF-8 in at most one way.
pub proof fn lemma_utf8_fault_unique(bytes: Seq<u8>, fault: Utf8Fault, other: Utf8Fault)
    requires
        is_utf8_fault(bytes, fault),
        is_utf8_fault(bytes, other),
    ensures
        fault == other,
{
    lemma_longest_valid_prefix_unique(bytes, fault.valid_up_to as int, other.valid_up_to as int);
}

/// Calls `core::str::from_utf8` and, where it fails, `Utf8Error::valid_up_to`
/// and `Utf8Error::error_len` on its error. Trusted: the call succeeds
/// exactly on UTF-8; the string it gives consists of the bytes it was given;
/// the first number of the error is the greatest length of a prefix on which
/// the call would succeed; the second is the length of an invalid sequence
/// that starts there within the bytes, or is absent, and then one to three
/// bytes are left from there.
#[verifier::external_body]
pub(crate) fn from_utf8(bytes: &[u8]) -> (r: Result<&str, Utf8Fault>)
    ensures
        match r {
            Ok(s) => valid_utf8(bytes@) && s.spec_bytes() == bytes@,
            Err(fault) => {
                &&& !valid_utf8(bytes@)
                &&& is_longest_valid_prefix(bytes@, fault.valid_up_to as int)
                &&& fault.error_len == utf8_error_len(bytes@)
                &&& match fault.error_len {
                    Some(n) => 1 <= n && fault.valid_up_to + n <= bytes@.len(),
                    None => 1 <= bytes@.len() - fault.valid_up_to <= 3,
                }
            },
        },
{
    match core::str::from_utf8(bytes) {
        Ok(s) => Ok(s),
        Err(e) => Err(Utf8Fault { valid_up_to: e.valid_up_to(), error_len: e.error_len() }),
    }
}

/// Reads `bytes` as UTF-8 text, or says where and how they stop being UTF-8.
pub fn read_text(bytes: &[u8]) -> (r: Result<String, Utf8Fault>)
    ensures
        match r {
            Ok(s) => valid_utf8(bytes@) && s@ == decode_utf8(bytes@),
            Err(fault) => !valid_utf8(bytes@) && is_utf8_fault(bytes@, fault),
        },
{
    match from_utf8(bytes) {
        Ok(s) => {
            proof {
                encode_utf8_decode_utf8(s@);
            }
            Ok(s.to_owned())
        },
        Err(fault) => Err(fault),
    }
}

} // verus!
