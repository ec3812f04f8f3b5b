//! From the bytes of a query string or form body to its (name, value) pairs.

use crate::error::{EncodingCause, UrlDecodingError, Utf8Fault};
use crate::escape::{
    find_bad_escape, is_first_bad_escape, lemma_first_bad_escape_unique,
    lemma_percent_decoded_plain, lemma_plus_to_space_plain, percent_decode, percent_decoded,
    plus_to_space, replace_plus, well_escaped, PERCENT, PLUS,
};
use crate::text::{from_utf8, is_utf8_fault, lemma_utf8_fault_unique, read_text};
use vstd::prelude::*;
use vstd::slice::slice_subrange;
use vstd::utf8::{decode_utf8, valid_utf8};

verus! {

/// The byte `&`, which ends a segment.
pub const AMPERSAND: u8 = 0x26;

/// The byte `=`, which ends a name.
pub const EQUALS: u8 = 0x3D;

/// The index of the first `d` in `s`, or the length of `s` if it holds none.
pub open spec fn position(s: Seq<u8>, d: u8) -> int
    decreases s.len(),
{
    if s.len() == 0 || s[0] == d {
        0
    } else {
        1 + position(s.skip(1), d)
    }
}

/// The pieces of `s` between the occurrences of `d`: one more than there are
/// occurrences.
pub open spec fn split(s: Seq<u8>, d: u8) -> Seq<Seq<u8>>
    decreases s.len(),
{
    let i = position(s, d);
    if 0 <= i < s.len() {
        seq![s.take(i)] + split(s.skip(i + 1), d)
    } else {
        seq![s]
    }
}

/// The segments of an input: its pieces between `&`s.
pub open spec fn segments(raw: Seq<u8>) -> Seq<Seq<u8>> {
    split(raw, AMPERSAND)
}

/// The bytes of a segment's name: those before its first `=`.
pub open spec fn name_bytes(segment: Seq<u8>) -> Seq<u8> {
    segment.take(position(segment, EQUALS))
}

/// The bytes of a segment's value: those behind its first `=`, none if it has no `=`.
pub open spec fn value_bytes(segment: Seq<u8>) -> Seq<u8> {
    let i = position(segment, EQUALS);
    if 0 <= i < segment.len() {
        segment.skip(i + 1)
    } else {
        Seq::empty()
    }
}

/// What the bytes of a name or value stand for: each `+` a space, each escape its byte.
pub open spec fn component_bytes(component: Seq<u8>) -> Seq<u8> {
    percent_decoded(plus_to_space(component))
}

/// The text of a name or value whose bytes stand for UTF-8.
pub open spec fn component_text(component: Seq<u8>) -> Seq<char> {
    decode_utf8(component_bytes(component))
}

/// Both the name and the value of `segment` stand for UTF-8.
pub open spec fn segment_ok(segment: Seq<u8>) -> bool {
    valid_utf8(component_bytes(name_bytes(segment))) && valid_utf8(
        component_bytes(value_bytes(segment)),
    )
}

/// The pair that `segment` stands for.
pub open spec fn segment_pair(segment: Seq<u8>) -> (Seq<char>, Seq<char>) {
    (component_text(name_bytes(segment)), component_text(value_bytes(segment)))
}

/// The name of `segment`, or else its value, does not stand for UTF-8, and
/// `fault` is the way in which the bytes that it stands for fail to be.
pub open spec fn segment_fault(segment: Seq<u8>, fault: Utf8Fault) -> bool {
    if !valid_utf8(component_bytes(name_bytes(segment))) {
        is_utf8_fault(component_bytes(name_bytes(segment)), fault)
    } else {
        !valid_utf8(component_bytes(value_bytes(segment))) && is_utf8_fault(
            component_bytes(value_bytes(segment)),
            fault,
        )
    }
}

/// The pairs that segments stand for, in their order.
pub open spec fn pairs_of(segs: Seq<Seq<u8>>) -> Seq<(Seq<char>, Seq<char>)> {
    segs.map_values(|segment: Seq<u8>| segment_pair(segment))
}

/// The pairs that an accepted input stands for: one for each segment.
pub open spec fn decoded_pairs(raw: Seq<u8>) -> Seq<(Seq<char>, Seq<char>)> {
    pairs_of(segments(raw))
}

/// The inputs that decode: not empty, UTF-8, every `%` opening an escape, and
/// every name and value standing for UTF-8.
pub open spec fn accepted(raw: Seq<u8>) -> bool {
    &&& raw.len() > 0
    &&& valid_utf8(raw)
    &&& well_escaped(raw)
    &&& forall|i: int| 0 <= i < segments(raw).len() ==> segment_ok(#[trigger] segments(raw)[i])
}

/// The segment at index `at` is the first of `raw` of which the name or the
/// value does not stand for UTF-8, and `fault` is the way in which the bytes
/// that this stands for fail to be.
pub open spec fn fails_at(raw: Seq<u8>, at: int, fault: Utf8Fault) -> bool {
    &&& 0 <= at < segments(raw).len()
    &&& forall|i: int| 0 <= i < at ==> segment_ok(#[trigger] segments(raw)[i])
    &&& segment_fault(segments(raw)[at], fault)
}

/// `e` is the error of the first of these that `raw` fails to be: not empty;
/// UTF-8; with each `%` opening an escape; with, segment by segment, the name
/// and then the value standing for UTF-8.
pub open spec fn rejected_with(raw: Seq<u8>, e: UrlDecodingError) -> bool {
    if raw.len() == 0 {
        e == UrlDecodingError::EmptyQuery
    } else if !valid_utf8(raw) {
        e matches UrlDecodingError::EncodingError(EncodingCause::InvalidUtf8(fault))
            && is_utf8_fault(raw, fault)
    } else if !well_escaped(raw) {
        e matches UrlDecodingError::EncodingError(EncodingCause::InvalidEscape { offset })
            && is_first_bad_escape(raw, offset as int)
    } else {
        e matches UrlDecodingError::EncodingError(EncodingCause::InvalidDecoded(fault))
            && exists|at: int| fails_at(raw, at, fault)
    }
}

/// A name or a value without `%` and `+` stands for its own bytes: the text
/// of one that is UTF-8 is the text that it spells.
pub proof fn lemma_plain_component(component: Seq<u8>)
    requires
        forall|i: int|
            0 <= i < component.len() ==> component[i] != PERCENT && component[i] != PLUS,
    ensures
        component_bytes(component) == component,
        component_text(component) == decode_utf8(component),
{
    lemma_plus_to_space_plain(component);
    lemma_percent_decoded_plain(component);
}

/// An input is either accepted or rejected with exactly one error.
pub proof fn lemma_one_outcome(raw: Seq<u8>, e: UrlDecodingError, other: UrlDecodingError)
    requires
        rejected_with(raw, e),
    ensures
        !accepted(raw),
        rejected_with(raw, other) ==> other == e,
{
    if raw.len() == 0 {
    } else if !valid_utf8(raw) {
        if rejected_with(raw, other) {
            lemma_utf8_fault_unique(
                raw,
                e->EncodingError_0->InvalidUtf8_0,
                other->EncodingError_0->InvalidUtf8_0,
            );
        }
    } else if !well_escaped(raw) {
        if rejected_with(raw, other) {
            lemma_first_bad_escape_unique(
                raw,
                e->EncodingError_0->offset as int,
                other->EncodingError_0->offset as int,
            );
        }
    } else {
        let n = e->EncodingError_0->InvalidDecoded_0;
        let at = choose|at: int| fails_at(raw, at, n);
        let segment = segments(raw)[at];
        assert(!segment_ok(segment));
        if rejected_with(raw, other) {
            let m = other->EncodingError_0->InvalidDecoded_0;
            let also = choose|also: int| fails_at(raw, also, m);
            assert(!segment_ok(segments(raw)[also]));
            assert(also == at);
            if !valid_utf8(component_bytes(name_bytes(segment))) {
                lemma_utf8_fault_unique(component_bytes(name_bytes(segment)), n, m);
            } else {
                lemma_utf8_fault_unique(component_bytes(value_bytes(segment)), n, m);
            }
        }
    }
}

proof fn lemma_position(s: Seq<u8>, d: u8, i: int)
    requires
        0 <= i <= s.len(),
        forall|j: int| 0 <= j < i ==> s[j] != d,
        i < s.len() ==> s[i] == d,
    ensures
        position(s, d) == i,
    decreases i,
{
    if i > 0 {
        lemma_position(s.skip(1), d, i - 1);
    }
}

/// Finds the first `d` in `bytes`.
pub fn find_byte(bytes: &[u8], d: u8) -> (r: usize)
    ensures
        r == position(bytes@, d),
        r <= bytes.len(),
        r < bytes.len() ==> bytes[r as int] == d,
{
    let mut i: usize = 0;
    while i < bytes.len() && bytes[i] != d
        invariant
            i <= bytes.len(),
            forall|j: int| 0 <= j < i ==> bytes[j] != d,
        decreases bytes.len() - i,
    {
        i += 1;
    }
    proof {
        lemma_position(bytes@, d, i as int);
    }
    i
}

/// Decodes a name or a value: each `+` becomes a space, each escape its
/// byte, and the bytes are read as UTF-8. Where they are not UTF-8, the
/// error says where and how they stop being it.
pub fn decode_component(bytes: &[u8]) -> (r: Result<String, Utf8Fault>)
    ensures
        match r {
            Ok(t) => valid_utf8(component_bytes(bytes@)) && t@ == component_text(bytes@),
            Err(fault) => !valid_utf8(component_bytes(bytes@)) && is_utf8_fault(
                component_bytes(bytes@),
                fault,
            ),
        },
{
    let spaced = replace_plus(bytes);
    let decoded = percent_decode(spaced.as_slice());
    read_text(decoded.as_slice())
}

/// Decodes one segment into its name and value, the name first.
pub fn decode_segment(segment: &[u8]) -> (r: Result<(String, String), Utf8Fault>)
    ensures
        match r {
            Ok(pair) => segment_ok(segment@) && (pair.0@, pair.1@) == segment_pair(segment@),
            Err(fault) => !segment_ok(segment@) && segment_fault(segment@, fault),
        },
{
    let at = find_byte(segment, EQUALS);
    let name = match decode_component(slice_subrange(segment, 0, at)) {
        Ok(text) => text,
        Err(fault) => {
            return Err(fault);
        },
    };
    let rest = if at < segment.len() {
        slice_subrange(segment, at + 1, segment.len())
    } else {
        slice_subrange(segment, 0, 0)
    };
    assert(rest@ =~= value_bytes(segment@));
    match decode_component(rest) {
        Ok(value) => Ok((name, value)),
        Err(fault) => Err(fault),
    }
}

/// Decodes the bytes of a query string or form body into its (name, value)
/// pairs, one for each segment between `&`s, in the order of the input.
pub fn decode(input: &[u8]) -> (r: Result<Vec<(String, String)>, UrlDecodingError>)
    ensures
        r is Ok <==> accepted(input@),
        match r {
            Ok(pairs) => pairs.deep_view() == decoded_pairs(input@),
            Err(e) => rejected_with(input@, e),
        },
{
    if input.len() == 0 {
        return Err(UrlDecodingError::EmptyQuery);
    }
    if let Err(fault) = from_utf8(input) {
        return Err(UrlDecodingError::EncodingError(EncodingCause::InvalidUtf8(fault)));
    }
    if let Some(i) = find_bad_escape(input) {
        return Err(UrlDecodingError::EncodingError(EncodingCause::InvalidEscape { offset: i }));
    }
    let ghost raw = input@;
    let ghost mut done: Seq<Seq<u8>> = Seq::empty();
    let mut pairs: Vec<(String, String)> = Vec::new();
    let mut rest: &[u8] = input;
    loop
        invariant
            raw == input@,
            raw.len() > 0,
            valid_utf8(raw),
            well_escaped(raw),
            segments(raw) == done + split(rest@, AMPERSAND),
            pairs.deep_view() == pairs_of(done),
            forall|i: int| 0 <= i < done.len() ==> segment_ok(#[trigger] done[i]),
        decreases rest.len(),
    {
        let end = find_byte(rest, AMPERSAND);
        let segment = slice_subrange(rest, 0, end);
        let ghost old_pairs = pairs.deep_view();
        proof {
            assert(forall|i: int| 0 <= i < done.len() ==> segments(raw)[i] == done[i]);
            assert(segments(raw)[done.len() as int] == segment@) by {
                assert(split(rest@, AMPERSAND)[0] =~= segment@);
            }
        }
        match decode_segment(segment) {
            Ok(pair) => {
                let ghost text = (pair.0@, pair.1@);
                pairs.push(pair);
                proof {
                    assert(pairs.deep_view() =~= old_pairs.push(text));
                    assert(pairs_of(done.push(segment@)) =~= pairs_of(done).push(text));
                }
            },
            Err(fault) => {
                let e = UrlDecodingError::EncodingError(EncodingCause::InvalidDecoded(fault));
                proof {
                    let at = done.len() as int;
                    assert forall|i: int| 0 <= i < at implies segment_ok(
                        #[trigger] segments(raw)[i],
                    ) by {
                        assert(segments(raw)[i] == done[i]);
                    }
                    assert(fails_at(raw, at, fault));
                }
                return Err(e);
            },
        }
        if end >= rest.len() {
            proof {
                assert(segments(raw) =~= done.push(segment@));
            }
            return Ok(pairs);
        }
        proof {
            let next = rest@.skip(end + 1);
            assert(done + split(rest@, AMPERSAND) =~= done.push(segment@) + split(next, AMPERSAND));
            done = done.push(segment@);
        }
        rest = slice_subrange(rest, end + 1, rest.len());
    }
}

} // verus!
