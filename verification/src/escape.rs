//! Percent escapes and the `+` that stands for a space.

use vstd::prelude::*;

verus! {

/// The byte `%`, which opens an escape.
pub const PERCENT: u8 = 0x25;

/// The byte `+`, which stands for a space.
pub const PLUS: u8 = 0x2B;

/// The byte of a space.
pub const SPACE: u8 = 0x20;

/// `b` is one of `0`-`9`, `A`-`F`, `a`-`f`.
pub open spec fn is_hex_digit(b: u8) -> bool {
    (0x30 <= b <= 0x39) || (0x41 <= b <= 0x46) || (0x61 <= b <= 0x66)
}

/// The number that the hexadecimal digit `b` stands for.
pub open spec fn hex_value(b: u8) -> int {
    if b <= 0x39 {
        b - 0x30
    } else if b <= 0x46 {
        b - 0x41 + 10
    } else {
        b - 0x61 + 10
    }
}

/// At index `i` of `s` stands a `%` that two hexadecimal digits follow.
pub open spec fn escape_at(s: Seq<u8>, i: int) -> bool {
    &&& 0 <= i
    &&& i + 2 < s.len()
    &&& s[i] == PERCENT
    &&& is_hex_digit(s[i + 1])
    &&& is_hex_digit(s[i + 2])
}

/// The byte that the escape at index `i` of `s` stands for.
pub open spec fn escaped_byte(s: Seq<u8>, i: int) -> u8 {
    (16 * hex_value(s[i + 1]) + hex_value(s[i + 2])) as u8
}

/// `s` with each escape replaced by the byte it stands for. A `%` that opens
/// no escape stays as it is.
pub open spec fn percent_decoded(s: Seq<u8>) -> Seq<u8>
    decreases s.len(),
{
    if s.len() == 0 {
        s
    } else if escape_at(s, 0) {
        seq![escaped_byte(s, 0)] + percent_decoded(s.skip(3))
    } else {
        seq![s[0]] + percent_decoded(s.skip(1))
    }
}

/// At index `i` of `s` stands a `%` that opens no escape.
pub open spec fn bad_escape_at(s: Seq<u8>, i: int) -> bool {
    0 <= i < s.len() && s[i] == PERCENT && !escape_at(s, i)
}

/// Every `%` in `s` opens an escape.
pub open spec fn well_escaped(s: Seq<u8>) -> bool {
    forall|i: int| !bad_escape_at(s, i)
}

/// Index `i` is the first in `s` at which a `%` opens no escape.
pub open spec fn is_first_bad_escape(s: Seq<u8>, i: int) -> bool {
    bad_escape_at(s, i) && forall|j: int| j < i ==> !bad_escape_at(s, j)
}

/// `s` with each `+` replaced by a space.
pub open spec fn plus_to_space(s: Seq<u8>) -> Seq<u8> {
    s.map_values(|b: u8| if b == PLUS { SPACE } else { b })
}

/// Bytes that hold no `%` stand for themselves.
pub proof fn lemma_percent_decoded_plain(s: Seq<u8>)
    requires
        forall|i: int| 0 <= i < s.len() ==> s[i] != PERCENT,
    ensures
        percent_decoded(s) == s,
    decreases s.len(),
{
    if s.len() > 0 {
        lemma_percent_decoded_plain(s.skip(1));
        assert(seq![s[0]] + s.skip(1) =~= s);
    }
}

/// Bytes that hold no `+` are left as they are.
pub proof fn lemma_plus_to_space_plain(s: Seq<u8>)
    requires
        forall|i: int| 0 <= i < s.len() ==> s[i] != PLUS,
    ensures
        plus_to_space(s) == s,
{
    assert(plus_to_space(s) =~= s);
}

/// At most one index is that of the first `%` that opens no escape, and
/// there is none where every `%` opens one.
pub proof fn lemma_first_bad_escape_unique(s: Seq<u8>, i: int, j: int)
    requires
        is_first_bad_escape(s, i),
        is_first_bad_escape(s, j),
    ensures
        i == j,
        !well_escaped(s),
{
}

fn hex_digit(b: u8) -> (r: bool)
    ensures
        r == is_hex_digit(b),
{
    (0x30 <= b && b <= 0x39) || (0x41 <= b && b <= 0x46) || (0x61 <= b && b <= 0x66)
}

/// Finds the first `%` that two hexadecimal digits do not follow.
pub fn find_bad_escape(bytes: &[u8]) -> (r: Option<usize>)
    ensures
        match r {
            Some(i) => is_first_bad_escape(bytes@, i as int),
            None => well_escaped(bytes@),
        },
{
    let n: usize = bytes.len();
    let mut i: usize = 0;
    while i < n
        invariant
            n == bytes.len(),
            i <= n,
            forall|j: int| j < i ==> !bad_escape_at(bytes@, j),
        decreases n - i,
    {
        if bytes[i] == PERCENT {
            if n - i > 2 && hex_digit(bytes[i + 1]) && hex_digit(bytes[i + 2]) {
                i += 3;
            } else {
                return Some(i);
            }
        } else {
            i += 1;
        }
    }
    None
}

/// Replaces each `+` by a space.
pub fn replace_plus(bytes: &[u8]) -> (r: Vec<u8>)
    ensures
        r@ == plus_to_space(bytes@),
{
    let mut out: Vec<u8> = Vec::with_capacity(bytes.len());
    let mut i: usize = 0;
    while i < bytes.len()
        invariant
            i <= bytes.len(),
            out@ == plus_to_space(bytes@.take(i as int)),
        decreases bytes.len() - i,
    {
        let b: u8 = bytes[i];
        out.push(if b == PLUS { SPACE } else { b });
        assert(plus_to_space(bytes@.take(i + 1)) =~= plus_to_space(bytes@.take(i as int)).push(
            if b == PLUS { SPACE } else { b },
        ));
        i += 1;
    }
    assert(bytes@.take(i as int) =~= bytes@);
    out
}

/// Calls `url::percent_encoding::percent_decode` and collects the bytes it yields.
/// Trusted: they are the bytes given, but that each `%` with two hexadecimal
/// digits behind it has become, with them, the one byte that the digits name.
#[verifier::external_body]
pub(crate) fn percent_decode(bytes: &[u8]) -> (r: Vec<u8>)
    ensures
        r@ == percent_decoded(bytes@),
{
    url::percent_encoding::percent_decode(bytes).collect()
}

} // verus!
