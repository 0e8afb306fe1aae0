use vstd::prelude::*;
use vstd::string::StringSliceAdditionalSpecFns;
use vstd::utf8::*;

use crate::text::{
    char_len_utf8, find_char, first_occurrence, lemma_boundary_after_prefix, lemma_encode_utf8_concat,
    lemma_encode_utf8_injective, lemma_encode_utf8_single, lemma_first_occurrence_exists,
};

verus! {

broadcast use vstd::string::group_string_axioms;

/// Splits `s` at the first `pat`: the part before it is returned, and `s`
/// is left pointing just past it. Where `s` holds no `pat`, all of `s` is
/// returned and `s` is left empty.
pub fn strtok<'a>(s: &mut &'a str, pat: char) -> (r: &'a str)
    ensures
        match first_occurrence(old(s)@, pat) {
            Some(k) => r@ == old(s)@.take(k) && final(s)@ == old(s)@.skip(k + 1),
            None => r@ == old(s)@ && final(s)@ == Seq::<char>::empty(),
        },
{
    let whole: &'a str = *s;
    match find_char(whole, pat) {
        Some(i) => {
            let (prefix, suffix) = split_around(whole, pat, i);
            *s = suffix;
            prefix
        },
        None => {
            let empty: &'a str = "";
            proof {
                reveal_strlit("");
            }
            *s = empty;
            whole
        },
    }
}

/// Cuts `s` around the character `pat` that starts at byte `i`, where `i`
/// is the offset of the first `pat`.
pub(crate) fn split_around<'a>(s: &'a str, pat: char, i: usize) -> (r: (&'a str, &'a str))
    requires
        first_occurrence(s@, pat) is Some,
        i == encode_utf8(s@.take(first_occurrence(s@, pat)->0)).len(),
    ensures
        r.0@ == s@.take(first_occurrence(s@, pat)->0),
        r.1@ == s@.skip(first_occurrence(s@, pat)->0 + 1),
{
    let ghost k = first_occurrence(s@, pat)->0;
    let ghost head = s@.take(k);
    let ghost tail = s@.skip(k);
    let ghost after = s@.skip(k + 1);
    proof {
        lemma_first_occurrence_exists(s@, pat);
        assert(s@ =~= head + tail);
        lemma_boundary_after_prefix(head, tail);
        lemma_encode_utf8_concat(head, tail);
    }
    let (prefix, rest) = s.split_at(i);
    proof {
        assert(encode_utf8(s@).subrange(0, i as int) =~= encode_utf8(head));
        lemma_encode_utf8_injective(prefix@, head);
        assert(encode_utf8(s@).subrange(i as int, encode_utf8(s@).len() as int) =~= encode_utf8(
            tail,
        ));
        lemma_encode_utf8_injective(rest@, tail);
        assert(tail =~= seq![pat] + after);
        lemma_boundary_after_prefix(seq![pat], after);
        lemma_encode_utf8_single(pat);
        lemma_encode_utf8_concat(seq![pat], after);
    }
    let n = char_len_utf8(pat);
    let (_, suffix) = rest.split_at(n);
    proof {
        assert(encode_utf8(tail).subrange(n as int, encode_utf8(tail).len() as int) =~= encode_utf8(
            after,
        ));
        lemma_encode_utf8_injective(suffix@, after);
    }
    (prefix, suffix)
}

} // verus!
