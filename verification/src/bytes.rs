//! Byte searching, from the `memchr` crate.

use vstd::prelude::*;

verus! {

/// The index of the first `needle` in `hay` at or after `from`, if any.
pub open spec fn first_index_from(hay: Seq<u8>, needle: u8, from: int) -> Option<int>
    decreases hay.len() - from,
{
    if from < 0 || from >= hay.len() {
        None
    } else if hay[from] == needle {
        Some(from)
    } else {
        first_index_from(hay, needle, from + 1)
    }
}

/// `memchr::memchr`: the index of the first occurrence of `needle` in `hay`,
/// or `None` when it does not occur.
#[verifier::external_body]
fn memchr_first(needle: u8, hay: &[u8]) -> (r: Option<usize>)
    ensures
        r matches Some(p) ==> p < hay@.len() && first_index_from(hay@, needle, 0) == Some(p as int),
        r is None ==> first_index_from(hay@, needle, 0) is None,
{
    memchr::memchr(needle, hay)
}

proof fn lemma_first_index_shift(hay: Seq<u8>, needle: u8, from: int, k: int)
    requires
        0 <= from <= hay.len(),
        0 <= k,
    ensures
        first_index_from(hay.subrange(from, hay.len() as int), needle, k) == match first_index_from(hay, needle, from + k) {
            Some(p) => Some(p - from),
            None => None,
        },
    decreases hay.len() - from - k,
{
    if from + k < hay.len() {
        lemma_first_index_shift(hay, needle, from, k + 1);
    }
}

/// The index in `hay` of the first `needle` at or after `from`, if any.
pub fn find_byte_from(needle: u8, hay: &[u8], from: usize) -> (r: Option<usize>)
    requires
        from <= hay@.len(),
    ensures
        r matches Some(p) ==> p < hay@.len() && first_index_from(hay@, needle, from as int) == Some(p as int),
        r matches Some(p) ==> from <= p < hay.len(),
        r is None ==> first_index_from(hay@, needle, from as int) is None,
{
    let rest = &hay[from..hay.len()];
    proof {
        lemma_first_index_shift(hay@, needle, from as int, 0);
        lemma_first_index_from(hay@, needle, from as int);
    }
    match memchr_first(needle, rest) {
        Some(p) => Some(p + from),
        None => None,
    }
}

/// What the first occurrence means: `p` holds `needle` and nothing between
/// `from` and `p` does.
pub proof fn lemma_first_index_from(hay: Seq<u8>, needle: u8, from: int)
    requires
        0 <= from,
    ensures
        first_index_from(hay, needle, from) matches Some(p) ==> from <= p < hay.len() && hay[p] == needle
            && forall|i: int| from <= i < p ==> hay[i] != needle,
        first_index_from(hay, needle, from) is None ==> forall|i: int| from <= i < hay.len() ==> hay[i] != needle,
    decreases hay.len() - from,
{
    if from < hay.len() && hay[from] != needle {
        lemma_first_index_from(hay, needle, from + 1);
    }
}


/// The index of the first byte of `hay` at or after `from` that is `a` or `b`, if any.
pub open spec fn first_of_two_from(hay: Seq<u8>, a: u8, b: u8, from: int) -> Option<int>
    decreases hay.len() - from,
{
    if from < 0 || from >= hay.len() {
        None
    } else if hay[from] == a || hay[from] == b {
        Some(from)
    } else {
        first_of_two_from(hay, a, b, from + 1)
    }
}

/// `memchr::memchr2`: the index of the first byte of `hay` that is `a` or `b`,
/// or `None` when neither occurs.
#[verifier::external_body]
fn memchr2_first(a: u8, b: u8, hay: &[u8]) -> (r: Option<usize>)
    ensures
        r matches Some(p) ==> p < hay@.len() && first_of_two_from(hay@, a, b, 0) == Some(p as int),
        r is None ==> first_of_two_from(hay@, a, b, 0) is None,
{
    memchr::memchr2(a, b, hay)
}

proof fn lemma_first_of_two_shift(hay: Seq<u8>, a: u8, b: u8, from: int, k: int)
    requires
        0 <= from <= hay.len(),
        0 <= k,
    ensures
        first_of_two_from(hay.subrange(from, hay.len() as int), a, b, k) == match first_of_two_from(hay, a, b, from + k) {
            Some(p) => Some(p - from),
            None => None,
        },
    decreases hay.len() - from - k,
{
    if from + k < hay.len() {
        lemma_first_of_two_shift(hay, a, b, from, k + 1);
    }
}

/// The index in `hay` of the first byte at or after `from` that is `a` or `b`.
pub fn find_either_from(a: u8, b: u8, hay: &[u8], from: usize) -> (r: Option<usize>)
    requires
        from <= hay@.len(),
    ensures
        r matches Some(p) ==> p < hay@.len() && first_of_two_from(hay@, a, b, from as int) == Some(p as int),
        r is None ==> first_of_two_from(hay@, a, b, from as int) is None,
{
    let rest = &hay[from..hay.len()];
    proof {
        lemma_first_of_two_shift(hay@, a, b, from as int, 0);
    }
    match memchr2_first(a, b, rest) {
        Some(p) => Some(p + from),
        None => None,
    }
}

/// What the first occurrence of either byte means.
pub proof fn lemma_first_of_two_from(hay: Seq<u8>, a: u8, b: u8, from: int)
    requires
        0 <= from,
    ensures
        first_of_two_from(hay, a, b, from) matches Some(p) ==> from <= p < hay.len() && (hay[p] == a || hay[p] == b)
            && forall|i: int| from <= i < p ==> hay[i] != a && hay[i] != b,
        first_of_two_from(hay, a, b, from) is None ==> forall|i: int| from <= i < hay.len() ==> hay[i] != a && hay[i] != b,
    decreases hay.len() - from,
{
    if from < hay.len() && hay[from] != a && hay[from] != b {
        lemma_first_of_two_from(hay, a, b, from + 1);
    }
}

} // verus!
