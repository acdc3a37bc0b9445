//! Byte-level helpers shared by the validators and the registry: ASCII case
//! folding, character counting for UTF-8 data, and searching within byte
//! strings.

use vstd::prelude::*;

verus! {

/// An ASCII uppercase letter.
pub open spec fn is_upper_byte(b: u8) -> bool {
    65 <= b <= 90
}

/// ASCII case folding of one byte: uppercase letters map to lowercase,
/// everything else (including UTF-8 continuation and leading bytes) is kept.
pub open spec fn lower_byte(b: u8) -> u8 {
    if is_upper_byte(b) {
        (b + 32) as u8
    } else {
        b
    }
}

/// ASCII case folding of a byte string. Multi-byte UTF-8 sequences only use
/// bytes of value 128 and above, so folding never touches them.
pub open spec fn lower_bytes(s: Seq<u8>) -> Seq<u8> {
    s.map_values(|b: u8| lower_byte(b))
}

/// Folds every ASCII uppercase letter of `s` to lowercase.
pub fn to_lowercase_bytes(s: &[u8]) -> (r: Vec<u8>)
    ensures
        r@ == lower_bytes(s@),
{
    let mut r: Vec<u8> = Vec::new();
    let mut i: usize = 0;
    while i < s.len()
        invariant
            i <= s@.len(),
            r@ == lower_bytes(s@.take(i as int)),
        decreases s@.len() - i,
    {
        let b = s[i];
        if 65 <= b && b <= 90 {
            r.push(b + 32);
        } else {
            r.push(b);
        }
        proof {
            assert(lower_bytes(s@.take(i + 1 as int)) =~= lower_bytes(s@.take(i as int)).push(
                lower_byte(s@[i as int]),
            ));
        }
        i = i + 1;
    }
    proof {
        assert(s@.take(s@.len() as int) =~= s@);
    }
    r
}

/// A UTF-8 continuation byte: one that does not begin a character.
pub open spec fn is_cont_byte(b: u8) -> bool {
    128 <= b < 192
}

/// The number of characters in a UTF-8 byte string: the number of bytes that
/// begin a character.
pub open spec fn char_count(s: Seq<u8>) -> nat
    decreases s.len(),
{
    if s.len() == 0 {
        0
    } else {
        char_count(s.drop_last()) + if is_cont_byte(s.last()) {
            0nat
        } else {
            1nat
        }
    }
}

/// Counts the characters of a UTF-8 byte string (its non-continuation bytes).
pub fn count_chars(s: &[u8]) -> (r: usize)
    ensures
        r == char_count(s@),
{
    let mut r: usize = 0;
    let mut i: usize = 0;
    while i < s.len()
        invariant
            i <= s@.len(),
            r == char_count(s@.take(i as int)),
            r <= i,
        decreases s@.len() - i,
    {
        let b = s[i];
        proof {
            assert(s@.take(i + 1 as int).drop_last() =~= s@.take(i as int));
        }
        if !(128 <= b && b < 192) {
            r = r + 1;
        }
        i = i + 1;
    }
    proof {
        assert(s@.take(s@.len() as int) =~= s@);
    }
    r
}

/// How many times byte `b` occurs in `s`.
pub open spec fn count_byte(s: Seq<u8>, b: u8) -> nat
    decreases s.len(),
{
    if s.len() == 0 {
        0
    } else {
        count_byte(s.drop_last(), b) + if s.last() == b {
            1nat
        } else {
            0nat
        }
    }
}

/// Counts the occurrences of byte `b` in `s`.
pub fn count_byte_occurrences(s: &[u8], b: u8) -> (r: usize)
    ensures
        r == count_byte(s@, b),
{
    let mut r: usize = 0;
    let mut i: usize = 0;
    while i < s.len()
        invariant
            i <= s@.len(),
            r == count_byte(s@.take(i as int), b),
            r <= i,
        decreases s@.len() - i,
    {
        proof {
            assert(s@.take(i + 1 as int).drop_last() =~= s@.take(i as int));
        }
        if s[i] == b {
            r = r + 1;
        }
        i = i + 1;
    }
    proof {
        assert(s@.take(s@.len() as int) =~= s@);
    }
    r
}

/// The position of the first occurrence of `b` in `s`, or `s.len()` if there
/// is none.
pub open spec fn first_index_of(s: Seq<u8>, b: u8) -> int
    decreases s.len(),
{
    if s.len() == 0 {
        0
    } else if s[0] == b {
        0
    } else {
        1 + first_index_of(s.drop_first(), b)
    }
}

pub proof fn lemma_first_index_of(s: Seq<u8>, b: u8)
    ensures
        0 <= first_index_of(s, b) <= s.len(),
        forall|j: int| 0 <= j < first_index_of(s, b) ==> s[j] != b,
        first_index_of(s, b) < s.len() ==> s[first_index_of(s, b)] == b,
    decreases s.len(),
{
    if s.len() > 0 && s[0] != b {
        lemma_first_index_of(s.drop_first(), b);
        assert forall|j: int| 0 <= j < first_index_of(s, b) implies s[j] != b by {
            if j > 0 {
                assert(s.drop_first()[j - 1] != b);
            }
        }
    }
}

/// Finds the first occurrence of `b` in `s`.
pub fn find_first(s: &[u8], b: u8) -> (r: usize)
    ensures
        r == first_index_of(s@, b),
{
    let mut i: usize = 0;
    while i < s.len()
        invariant
            i <= s@.len(),
            forall|j: int| 0 <= j < i ==> s@[j] != b,
        decreases s@.len() - i,
    {
        if s[i] == b {
            proof {
                lemma_first_index_of_prefix(s@, b, i as int);
            }
            return i;
        }
        i = i + 1;
    }
    proof {
        lemma_first_index_of_none(s@, b);
    }
    i
}

/// The position of the last occurrence of `b` in `s`, or `-1` if there is
/// none.
pub open spec fn last_index_of(s: Seq<u8>, b: u8) -> int
    decreases s.len(),
{
    if s.len() == 0 {
        -1
    } else if s.last() == b {
        s.len() - 1
    } else {
        last_index_of(s.drop_last(), b)
    }
}

pub proof fn lemma_last_index_of(s: Seq<u8>, b: u8)
    ensures
        -1 <= last_index_of(s, b) < s.len(),
        forall|j: int| last_index_of(s, b) < j < s.len() ==> s[j] != b,
        last_index_of(s, b) >= 0 ==> s[last_index_of(s, b)] == b,
        last_index_of(s, b) == -1 <==> count_byte(s, b) == 0,
    decreases s.len(),
{
    if s.len() > 0 && s.last() != b {
        lemma_last_index_of(s.drop_last(), b);
        assert forall|j: int| last_index_of(s, b) < j < s.len() implies s[j] != b by {
            if j < s.len() - 1 {
                assert(s.drop_last()[j] != b);
            }
        }
    }
}

/// If `s[k] == b` and nothing after `k` is `b`, the last occurrence is at `k`.
proof fn lemma_last_index_of_suffix(s: Seq<u8>, b: u8, k: int)
    requires
        0 <= k < s.len(),
        s[k] == b,
        forall|j: int| k < j < s.len() ==> s[j] != b,
    ensures
        last_index_of(s, b) == k,
    decreases s.len(),
{
    if s.last() != b {
        lemma_last_index_of_suffix(s.drop_last(), b, k);
    }
}

proof fn lemma_last_index_of_none(s: Seq<u8>, b: u8)
    requires
        forall|j: int| 0 <= j < s.len() ==> s[j] != b,
    ensures
        last_index_of(s, b) == -1,
    decreases s.len(),
{
    if s.len() > 0 {
        lemma_last_index_of_none(s.drop_last(), b);
    }
}

/// Finds the last occurrence of `b` in `s`, reported as `Some(position)`.
pub fn find_last(s: &[u8], b: u8) -> (r: Option<usize>)
    ensures
        match r {
            Some(i) => i == last_index_of(s@, b),
            None => last_index_of(s@, b) == -1,
        },
{
    let mut i: usize = s.len();
    while i > 0
        invariant
            i <= s@.len(),
            forall|j: int| i <= j < s@.len() ==> s@[j] != b,
        decreases i,
    {
        i = i - 1;
        if s[i] == b {
            proof {
                lemma_last_index_of_suffix(s@, b, i as int);
            }
            return Some(i);
        }
    }
    proof {
        lemma_last_index_of_none(s@, b);
    }
    None
}

/// The pieces of `s` between occurrences of the separator `sep`: always at
/// least one piece, and one more piece per occurrence of `sep`.
pub open spec fn split_bytes(s: Seq<u8>, sep: u8) -> Seq<Seq<u8>>
    decreases s.len(),
{
    let i = first_index_of(s, sep);
    if 0 <= i < s.len() {
        seq![s.take(i)] + split_bytes(s.skip(i + 1), sep)
    } else {
        seq![s]
    }
}

pub proof fn lemma_count_byte_zero(s: Seq<u8>, b: u8)
    requires
        forall|j: int| 0 <= j < s.len() ==> s[j] != b,
    ensures
        count_byte(s, b) == 0,
    decreases s.len(),
{
    if s.len() > 0 {
        lemma_count_byte_zero(s.drop_last(), b);
    }
}


/// Splits `s` at every occurrence of `sep`.
pub fn split_bytes_exec(s: &[u8], sep: u8) -> (parts: Vec<Vec<u8>>)
    ensures
        parts@.map_values(|p: Vec<u8>| p@) == split_bytes(s@, sep),
        parts@.len() >= 1,
{
    let mut parts: Vec<Vec<u8>> = Vec::new();
    let mut start: usize = 0;
    let mut i: usize = 0;
    proof {
        assert(s@.skip(0) =~= s@);
        assert(parts@.map_values(|p: Vec<u8>| p@) + split_bytes(s@, sep) =~= split_bytes(s@, sep));
    }
    while i < s.len()
        invariant
            start <= i <= s@.len(),
            forall|j: int| start <= j < i ==> s@[j] != sep,
            split_bytes(s@, sep) == parts@.map_values(|p: Vec<u8>| p@) + split_bytes(
                s@.skip(start as int),
                sep,
            ),
        decreases s@.len() - i,
    {
        if s[i] == sep {
            let piece = slice_to_vec_u8(slice_subrange_u8(s, start, i));
            proof {
                let rest = s@.skip(start as int);
                lemma_first_index_of_prefix(rest, sep, i - start);
                assert(rest.take(i - start) =~= s@.subrange(start as int, i as int));
                assert(rest.skip(i - start + 1) =~= s@.skip(i + 1 as int));
                assert((parts@.map_values(|p: Vec<u8>| p@) + split_bytes(rest, sep)) =~= (
                parts@.map_values(|p: Vec<u8>| p@).push(s@.subrange(start as int, i as int))
                    + split_bytes(s@.skip(i + 1 as int), sep)));
                assert(parts@.push(piece).map_values(|p: Vec<u8>| p@) =~= parts@.map_values(
                    |p: Vec<u8>| p@,
                ).push(piece@));
            }
            parts.push(piece);
            start = i + 1;
        }
        i = i + 1;
    }
    let piece = slice_to_vec_u8(slice_subrange_u8(s, start, s.len()));
    proof {
        let rest = s@.skip(start as int);
        lemma_first_index_of_none(rest, sep);
        assert(rest =~= s@.subrange(start as int, s@.len() as int));
        assert((parts@.map_values(|p: Vec<u8>| p@) + split_bytes(rest, sep)) =~= parts@.map_values(
            |p: Vec<u8>| p@,
        ).push(rest));
        assert(parts@.push(piece).map_values(|p: Vec<u8>| p@) =~= parts@.map_values(
            |p: Vec<u8>| p@,
        ).push(piece@));
    }
    parts.push(piece);
    parts
}

/// If `rest` has no `sep` before position `k` and `rest[k] == sep`, the first
/// occurrence is at `k`.
proof fn lemma_first_index_of_prefix(rest: Seq<u8>, sep: u8, k: int)
    requires
        0 <= k < rest.len(),
        rest[k] == sep,
        forall|j: int| 0 <= j < k ==> rest[j] != sep,
    ensures
        first_index_of(rest, sep) == k,
{
    lemma_first_index_of(rest, sep);
    if first_index_of(rest, sep) < k {
        assert(rest[first_index_of(rest, sep)] != sep);
    }
    if first_index_of(rest, sep) > k {
        assert(rest[k] != sep);
    }
}

proof fn lemma_first_index_of_none(rest: Seq<u8>, sep: u8)
    requires
        forall|j: int| 0 <= j < rest.len() ==> rest[j] != sep,
    ensures
        first_index_of(rest, sep) == rest.len(),
{
    lemma_first_index_of(rest, sep);
    if first_index_of(rest, sep) < rest.len() {
        assert(rest[first_index_of(rest, sep)] != sep);
    }
}

/// Copies the byte range `[i, j)` of a slice.
pub fn slice_subrange_u8<'a>(s: &'a [u8], i: usize, j: usize) -> (r: &'a [u8])
    requires
        0 <= i <= j <= s@.len(),
    ensures
        r@ == s@.subrange(i as int, j as int),
{
    vstd::slice::slice_subrange(s, i, j)
}

/// Copies a byte slice into an owned vector.
pub fn slice_to_vec_u8(s: &[u8]) -> (r: Vec<u8>)
    ensures
        r@ == s@,
{
    vstd::slice::slice_to_vec(s)
}

/// Compares two byte vectors.
pub fn bytes_vec_eq(a: &Vec<u8>, b: &Vec<u8>) -> (r: bool)
    ensures
        r == (a@ == b@),
{
    if a.len() != b.len() {
        return false;
    }
    let mut i: usize = 0;
    while i < a.len()
        invariant
            a@.len() == b@.len(),
            i <= a@.len(),
            forall|j: int| 0 <= j < i ==> a@[j] == b@[j],
        decreases a@.len() - i,
    {
        if a[i] != b[i] {
            return false;
        }
        i = i + 1;
    }
    proof {
        assert(a@ =~= b@);
    }
    true
}

} // verus!
