use vstd::prelude::*;
use vstd::string::{StringExecFns, StringSliceAdditionalSpecFns};
use vstd::utf8::valid_utf8;

use crate::split::split;
use crate::text::first_occurrence;

verus! {

broadcast use vstd::string::group_string_axioms;

/// The key under which `key` of `table` is stored: `table:key`.
pub fn get_full_key(table: &str, key: &str) -> (r: String)
    ensures
        r@ == table@ + ":"@ + key@,
{
    let mut r = table.to_owned();
    r.append(":");
    r.append(key);
    r
}

/// The prefix that every stored key of `table` starts with: `table:`.
pub fn get_table_prefix(table: &str) -> (r: String)
    ensures
        r@ == table@ + ":"@,
{
    let mut r = table.to_owned();
    r.append(":");
    r
}

/// Turns an optional result into a result of an option.
pub fn flip<T, E>(x: Option<Result<T, E>>) -> (r: Result<Option<T>, E>)
    ensures
        match x {
            None => r matches Ok(None),
            Some(Ok(v)) => r matches Ok(Some(w)) && w == v,
            Some(Err(e)) => r matches Err(f) && f == e,
        },
{
    match x {
        None => Ok(None),
        Some(Ok(v)) => Ok(Some(v)),
        Some(Err(e)) => Err(e),
    }
}

/// Checks that `bytes` are UTF-8 and views them as text.
///
/// Calls `std::str::from_utf8`, which succeeds exactly on valid UTF-8 and
/// then returns text whose encoding is those bytes.
#[verifier::external_body]
fn str_from_utf8(bytes: &[u8]) -> (r: Option<&str>)
    ensures
        r is Some <==> valid_utf8(bytes@),
        r matches Some(s) ==> s.spec_bytes() == bytes@,
{
    std::str::from_utf8(bytes).ok()
}

/// The part of `text` between its first `:` and the next one (or its end).
pub open spec fn key_part(text: Seq<char>) -> Seq<char> {
    let after = text.skip(first_occurrence(text, ':')->0 + 1);
    match first_occurrence(after, ':') {
        Some(k) => after.take(k),
        None => after,
    }
}

/// The key that a stored `table:key` names.
pub fn ivec_to_key(ivec: &[u8]) -> (r: &str)
    requires
        valid_utf8(ivec@),
        vstd::utf8::decode_utf8(ivec@).contains(':'),
    ensures
        r@ == key_part(vstd::utf8::decode_utf8(ivec@)),
{
    let s = str_from_utf8(ivec).unwrap();
    proof {
        vstd::utf8::decode_utf8_encode_utf8(ivec@);
        crate::text::lemma_encode_utf8_injective(s@, vstd::utf8::decode_utf8(ivec@));
    }
    let (_, after) = split(s, ':').unwrap();
    match split(after, ':') {
        Some((key, _)) => key,
        None => after,
    }
}

/// The key of a stored `table:key` is the key it was stored under, where
/// neither the table's name nor the key holds a `:`.
pub proof fn law_key_round_trip(table: Seq<char>, key: Seq<char>)
    requires
        !table.contains(':'),
        !key.contains(':'),
    ensures
        key_part(table + ":"@ + key) == key,
{
    reveal_strlit(":");
    assert(":"@ =~= seq![':']);
    crate::text::lemma_first_occurrence_after(table, ':', key);
    assert(first_occurrence(key, ':') is None);
}

/// A stored key starts with its table's prefix.
pub proof fn law_full_key_has_prefix(table: Seq<char>, key: Seq<char>)
    ensures
        (table + ":"@ + key).take((table + ":"@).len() as int) == table + ":"@,
{
    assert((table + ":"@ + key).take((table + ":"@).len() as int) =~= table + ":"@);
}

} // verus!
