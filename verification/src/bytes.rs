//! Byte strings as sequences: where a byte first and last occurs, and what
//! the byte search routines are taken to return.

use vstd::prelude::*;

verus! {

/// `i` is the place of the first `needle` in `s`.
pub open spec fn is_first_at(s: Seq<u8>, needle: u8, i: int) -> bool {
    &&& 0 <= i < s.len()
    &&& s[i] == needle
    &&& forall|j: int| 0 <= j < i ==> s[j] != needle
}

/// `i` is the place of the last `needle` in `s`.
pub open spec fn is_last_at(s: Seq<u8>, needle: u8, i: int) -> bool {
    &&& 0 <= i < s.len()
    &&& s[i] == needle
    &&& forall|j: int| i < j < s.len() ==> s[j] != needle
}

/// `needle` occurs nowhere in `s`.
pub open spec fn is_absent(s: Seq<u8>, needle: u8) -> bool {
    forall|j: int| 0 <= j < s.len() ==> s[j] != needle
}

/// The place of the first `needle` in `s`, or `None` where there is none.
pub open spec fn first_index(s: Seq<u8>, needle: u8) -> Option<int>
    decreases s.len(),
{
    if s.len() == 0 {
        None
    } else if s[0] == needle {
        Some(0)
    } else {
        match first_index(s.skip(1), needle) {
            Some(i) => Some(i + 1),
            None => None,
        }
    }
}

/// The place of the last `needle` in `s`, or `None` where there is none.
pub open spec fn last_index(s: Seq<u8>, needle: u8) -> Option<int>
    decreases s.len(),
{
    if s.len() == 0 {
        None
    } else if s.last() == needle {
        Some(s.len() - 1)
    } else {
        last_index(s.drop_last(), needle)
    }
}

/// `first_index` finds the first occurrence, and fails only where the byte
/// is absent.
pub proof fn lemma_first_index(s: Seq<u8>, needle: u8)
    ensures
        match first_index(s, needle) {
            Some(i) => is_first_at(s, needle, i),
            None => is_absent(s, needle),
        },
    decreases s.len(),
{
    if s.len() > 0 && s[0] != needle {
        let t = s.skip(1);
        lemma_first_index(t, needle);
        match first_index(t, needle) {
            Some(i) => {
                assert(s[i + 1] == t[i]);
                assert forall|j: int| 0 <= j < i + 1 implies s[j] != needle by {
                    if j > 0 {
                        assert(s[j] == t[j - 1]);
                    }
                }
            },
            None => {
                assert forall|j: int| 0 <= j < s.len() implies s[j] != needle by {
                    if j > 0 {
                        assert(s[j] == t[j - 1]);
                    }
                }
            },
        }
    }
}

/// `last_index` finds the last occurrence, and fails only where the byte is
/// absent.
pub proof fn lemma_last_index(s: Seq<u8>, needle: u8)
    ensures
        match last_index(s, needle) {
            Some(i) => is_last_at(s, needle, i),
            None => is_absent(s, needle),
        },
    decreases s.len(),
{
    if s.len() > 0 && s.last() != needle {
        let t = s.drop_last();
        lemma_last_index(t, needle);
        match last_index(t, needle) {
            Some(i) => {
                assert(s[i] == t[i]);
                assert forall|j: int| i < j < s.len() implies s[j] != needle by {
                    if j < t.len() {
                        assert(s[j] == t[j]);
                    }
                }
            },
            None => {
                assert forall|j: int| 0 <= j < s.len() implies s[j] != needle by {
                    if j < t.len() {
                        assert(s[j] == t[j]);
                    }
                }
            },
        }
    }
}

/// There is one first occurrence at most, and `first_index` gives it.
pub proof fn lemma_first_index_is(s: Seq<u8>, needle: u8, i: int)
    requires
        is_first_at(s, needle, i),
    ensures
        first_index(s, needle) == Some(i),
{
    lemma_first_index(s, needle);
}

/// There is one last occurrence at most, and `last_index` gives it.
pub proof fn lemma_last_index_is(s: Seq<u8>, needle: u8, i: int)
    requires
        is_last_at(s, needle, i),
    ensures
        last_index(s, needle) == Some(i),
{
    lemma_last_index(s, needle);
}

/// Where the byte is absent, both searches fail.
pub proof fn lemma_index_of_absent(s: Seq<u8>, needle: u8)
    requires
        is_absent(s, needle),
    ensures
        first_index(s, needle) is None,
        last_index(s, needle) is None,
{
    lemma_first_index(s, needle);
    lemma_last_index(s, needle);
}

/// `memchr::memchr` is taken to return the index of the first byte of
/// `haystack` that equals `needle`, and `None` exactly where no byte does,
/// as its documentation says.
pub assume_specification[ memchr::memchr ](needle: u8, haystack: &[u8]) -> (r: Option<usize>)
    ensures
        match r {
            Some(i) => is_first_at(haystack@, needle, i as int),
            None => is_absent(haystack@, needle),
        },
;

/// `memchr::memrchr` is taken to return the index of the last byte of
/// `haystack` that equals `needle`, and `None` exactly where no byte does,
/// as its documentation says.
pub assume_specification[ memchr::memrchr ](needle: u8, haystack: &[u8]) -> (r: Option<usize>)
    ensures
        match r {
            Some(i) => is_last_at(haystack@, needle, i as int),
            None => is_absent(haystack@, needle),
        },
;

/// Whether `s` begins with `prefix`.
pub fn starts_with(s: &[u8], prefix: &[u8]) -> (r: bool)
    ensures
        r == prefix@.is_prefix_of(s@),
{
    if s.len() < prefix.len() {
        return false;
    }
    let mut i: usize = 0;
    while i < prefix.len()
        invariant
            i <= prefix@.len() <= s@.len(),
            forall|j: int| 0 <= j < i ==> s@[j] == prefix@[j],
        decreases prefix@.len() - i,
    {
        if s[i] != prefix[i] {
            assert(s@.subrange(0, prefix@.len() as int)[i as int] != prefix@[i as int]);
            return false;
        }
        i += 1;
    }
    assert(s@.subrange(0, prefix@.len() as int) =~= prefix@);
    true
}

/// The bytes of `a` followed by those of `b`.
pub fn join_bytes(a: &[u8], b: &[u8]) -> (r: Vec<u8>)
    ensures
        r@ == a@ + b@,
{
    let mut r: Vec<u8> = Vec::new();
    let mut i: usize = 0;
    while i < a.len()
        invariant
            i <= a@.len(),
            r@ == a@.take(i as int),
        decreases a@.len() - i,
    {
        r.push(a[i]);
        assert(a@.take(i + 1) =~= a@.take(i as int).push(a@[i as int]));
        i += 1;
    }
    assert(a@.take(a@.len() as int) =~= a@);
    let mut j: usize = 0;
    while j < b.len()
        invariant
            j <= b@.len(),
            r@ == a@ + b@.take(j as int),
        decreases b@.len() - j,
    {
        r.push(b[j]);
        assert(a@ + b@.take(j + 1) =~= (a@ + b@.take(j as int)).push(b@[j as int]));
        j += 1;
    }
    assert(b@.take(b@.len() as int) =~= b@);
    r
}

} // verus!
