//! Strings seen as the bytes of their UTF-8 form: where a string may be cut,
//! how two strings are told apart, and which of two comes first.

use vstd::prelude::*;
use vstd::string::*;
use vstd::utf8::*;

verus! {

/// Strings with the same bytes have the same characters.
pub proof fn lemma_bytes_determine_chars(a: Seq<char>, b: Seq<char>)
    requires
        encode_utf8(a) == encode_utf8(b),
    ensures
        a == b,
{
    encode_utf8_decode_utf8(a);
    encode_utf8_decode_utf8(b);
}

/// The bytes of a concatenation are the concatenation of the bytes.
pub proof fn lemma_bytes_of_concat(a: Seq<char>, b: Seq<char>)
    ensures
        encode_utf8(a + b) == encode_utf8(a) + encode_utf8(b),
    decreases a.len(),
{
    if a.len() == 0 {
        assert(a + b =~= b);
        assert(encode_utf8(a) + encode_utf8(b) =~= encode_utf8(b));
    } else {
        lemma_bytes_of_concat(a.drop_first(), b);
        assert((a + b).drop_first() =~= a.drop_first() + b);
        assert(encode_utf8(a + b) =~= encode_utf8(a) + encode_utf8(b));
    }
}

/// A byte that starts a character stands on a character boundary.
pub proof fn lemma_boundary_at_start_byte(bytes: Seq<u8>, pos: int)
    requires
        valid_utf8(bytes),
        0 <= pos < bytes.len(),
        !is_continuation_byte(bytes[pos]),
    ensures
        is_char_boundary(bytes, pos),
{
    is_char_boundary_iff_not_is_continuation_byte(bytes, pos);
}

/// The position right after a single-byte character is a character boundary.
pub proof fn lemma_boundary_after_ascii(bytes: Seq<u8>, pos: int)
    requires
        valid_utf8(bytes),
        0 <= pos < bytes.len(),
        bytes[pos] < 0x80,
    ensures
        is_char_boundary(bytes, pos + 1),
{
    let len = bytes.len() as int;
    lemma_boundary_at_start_byte(bytes, pos);
    valid_utf8_split(bytes, pos);
    let tail = bytes.subrange(pos, len);
    assert(tail[0] == bytes[pos]);
    assert(length_of_first_scalar(tail) == 1);
    let rest = bytes.subrange(pos + 1, len);
    assert(pop_first_scalar(tail) =~= rest);
    assert(valid_utf8(rest));
    if pos + 1 == len {
        is_char_boundary_start_end_of_seq(bytes);
    } else {
        assert(valid_first_scalar(rest));
        assert(rest[0] == bytes[pos + 1]);
        lemma_boundary_at_start_byte(bytes, pos + 1);
    }
}

/// Between two character boundaries lies a string of its own: the later
/// boundary is one of the tail that starts at the earlier.
pub proof fn lemma_boundary_in_tail(bytes: Seq<u8>, from: int, to: int)
    requires
        valid_utf8(bytes),
        0 <= from <= to <= bytes.len(),
        is_char_boundary(bytes, from),
        is_char_boundary(bytes, to),
    ensures
        valid_utf8(bytes.subrange(from, bytes.len() as int)),
        is_char_boundary(bytes.subrange(from, bytes.len() as int), to - from),
{
    let len = bytes.len() as int;
    let tail = bytes.subrange(from, len);
    valid_utf8_split(bytes, from);
    if to == len {
        is_char_boundary_start_end_of_seq(tail);
    } else {
        is_char_boundary_iff_not_is_continuation_byte(bytes, to);
        assert(tail[to - from] == bytes[to]);
        is_char_boundary_iff_not_is_continuation_byte(tail, to - from);
    }
}

/// The part of `input` between the byte offsets `from` and `to`, as a string of its own.
pub fn substring(input: &str, from: usize, to: usize) -> (part: String)
    requires
        from <= to <= input.spec_bytes().len(),
        is_char_boundary(input.spec_bytes(), from as int),
        is_char_boundary(input.spec_bytes(), to as int),
    ensures
        encode_utf8(part@) == input.spec_bytes().subrange(from as int, to as int),
{
    let ghost bytes = input.spec_bytes();
    proof {
        encode_utf8_valid_utf8(input@);
        lemma_boundary_in_tail(bytes, from as int, to as int);
    }
    let (_, tail) = input.split_at(from);
    let (part, _) = tail.split_at(to - from);
    assert(part.spec_bytes() =~= bytes.subrange(from as int, to as int));
    part.to_owned()
}

/// Whether two strings hold the same bytes.
pub fn same_bytes(a: &str, b: &str) -> (same: bool)
    ensures
        same == (a.spec_bytes() == b.spec_bytes()),
        same == (a@ == b@),
{
    let x = a.as_bytes();
    let y = b.as_bytes();
    proof {
        if a.spec_bytes() == b.spec_bytes() {
            lemma_bytes_determine_chars(a@, b@);
        }
    }
    if x.len() != y.len() {
        return false;
    }
    let mut i: usize = 0;
    while i < x.len()
        invariant
            x@ == a.spec_bytes(),
            y@ == b.spec_bytes(),
            x.len() == y.len(),
            i <= x.len(),
            forall|j: int| 0 <= j < i ==> x@[j] == y@[j],
        decreases x.len() - i,
    {
        if x[i] != y[i] {
            return false;
        }
        i += 1;
    }
    assert(x@ =~= y@);
    true
}

/// The first index from `from` on at which `a` and `b` differ or one of them ends.
pub open spec fn first_difference(a: Seq<u8>, b: Seq<u8>, from: int) -> int
    decreases a.len() - from,
{
    if from < 0 || from >= a.len() || from >= b.len() || a[from] != b[from] {
        from
    } else {
        first_difference(a, b, from + 1)
    }
}

/// Whether `a` comes before `b` in the order of byte strings: at the first
/// index where they part, `a` has ended or holds the smaller byte.
pub open spec fn comes_before(a: Seq<u8>, b: Seq<u8>) -> bool {
    let k = first_difference(a, b, 0);
    k < b.len() && (k == a.len() || a[k] < b[k])
}

/// What `first_difference` finds: the two strings agree up to it, and part there.
pub proof fn lemma_first_difference(a: Seq<u8>, b: Seq<u8>, from: int)
    requires
        0 <= from <= a.len(),
        from <= b.len(),
    ensures
        from <= first_difference(a, b, from) <= a.len(),
        first_difference(a, b, from) <= b.len(),
        forall|j: int| from <= j < first_difference(a, b, from) ==> a[j] == b[j],
        ({
            let k = first_difference(a, b, from);
            k == a.len() || k == b.len() || a[k] != b[k]
        }),
    decreases a.len() - from,
{
    if from >= a.len() || from >= b.len() || a[from] != b[from] {
    } else {
        lemma_first_difference(a, b, from + 1);
    }
}

/// An index up to which two strings agree and at which they part is their first difference.
pub proof fn lemma_first_difference_is(a: Seq<u8>, b: Seq<u8>, from: int, k: int)
    requires
        0 <= from <= k <= a.len(),
        k <= b.len(),
        forall|j: int| from <= j < k ==> a[j] == b[j],
        k == a.len() || k == b.len() || a[k] != b[k],
    ensures
        first_difference(a, b, from) == k,
    decreases k - from,
{
    if from < k {
        lemma_first_difference_is(a, b, from + 1, k);
    }
}

/// No string comes before itself.
pub proof fn lemma_order_irreflexive(a: Seq<u8>)
    ensures
        !comes_before(a, a),
{
    lemma_first_difference_is(a, a, 0, a.len() as int);
}

/// Of two different strings one comes before the other.
pub proof fn lemma_order_total(a: Seq<u8>, b: Seq<u8>)
    ensures
        comes_before(a, b) || comes_before(b, a) || a == b,
{
    lemma_first_difference(a, b, 0);
    let k = first_difference(a, b, 0);
    lemma_first_difference_is(b, a, 0, k);
    if !comes_before(a, b) && !comes_before(b, a) {
        assert(a =~= b);
    }
}

/// The order is transitive.
pub proof fn lemma_order_transitive(a: Seq<u8>, b: Seq<u8>, c: Seq<u8>)
    requires
        comes_before(a, b),
        comes_before(b, c),
    ensures
        comes_before(a, c),
{
    lemma_first_difference(a, b, 0);
    lemma_first_difference(b, c, 0);
    let k1 = first_difference(a, b, 0);
    let k2 = first_difference(b, c, 0);
    let k = if k1 < k2 { k1 } else { k2 };
    lemma_first_difference_is(a, c, 0, k);
}

/// Two strings of which one comes before the other differ, and only one comes first.
pub proof fn lemma_order_asymmetric(a: Seq<u8>, b: Seq<u8>)
    requires
        comes_before(a, b),
    ensures
        a != b,
        !comes_before(b, a),
{
    lemma_order_irreflexive(a);
    if comes_before(b, a) {
        lemma_order_transitive(a, b, a);
    }
}

/// Whether `a` comes before `b` in the order of their bytes.
pub fn precedes(a: &str, b: &str) -> (before: bool)
    ensures
        before == comes_before(a.spec_bytes(), b.spec_bytes()),
{
    let x = a.as_bytes();
    let y = b.as_bytes();
    let mut i: usize = 0;
    while i < x.len() && i < y.len()
        invariant
            x@ == a.spec_bytes(),
            y@ == b.spec_bytes(),
            i <= x.len(),
            i <= y.len(),
            forall|j: int| 0 <= j < i ==> x@[j] == y@[j],
        decreases x.len() - i,
    {
        if x[i] != y[i] {
            proof {
                lemma_first_difference_is(x@, y@, 0, i as int);
            }
            return x[i] < y[i];
        }
        i += 1;
    }
    proof {
        lemma_first_difference_is(x@, y@, 0, i as int);
    }
    i < y.len()
}

} // verus!
