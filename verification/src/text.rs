//! UTF-8 facts for cutting a `str` at the ASCII separators of the format.
use crate::order::{fold, fold_byte};
use vstd::prelude::*;
use vstd::string::StringSliceAdditionalSpecFns;
use vstd::utf8::*;

verus! {

broadcast use vstd::utf8::group_utf8_lib;

/// The byte right after an ASCII byte that starts a character also starts one.
proof fn lemma_boundary_after_ascii(b: Seq<u8>, p: int)
    requires
        valid_utf8(b),
        0 <= p < b.len(),
        is_char_boundary(b, p),
        is_leading_byte_width_1(b[p]),
    ensures
        is_char_boundary(b, p + 1),
    decreases b.len(),
{
    let rest = pop_first_scalar(b);
    if p == 0 {
        assert(length_of_first_scalar(b) == 1);
        assert(is_char_boundary(rest, 0));
    } else {
        let l = length_of_first_scalar(b);
        assert(is_char_boundary(rest, p - l));
        assert(p - l >= 0);
        assert(rest[p - l] == b[p]);
        lemma_boundary_after_ascii(rest, p - l);
    }
}

/// Both sides of an ASCII byte are character boundaries.
pub proof fn lemma_ascii_boundaries(b: Seq<u8>, p: int)
    requires
        valid_utf8(b),
        0 <= p < b.len(),
        b[p] < 0x80,
    ensures
        is_char_boundary(b, p),
        is_char_boundary(b, p + 1),
{
    is_char_boundary_iff_not_is_continuation_byte(b, p);
    lemma_boundary_after_ascii(b, p);
}

/// A boundary before `j` stays a boundary of the prefix that ends at the boundary `j`.
proof fn lemma_boundary_of_prefix(b: Seq<u8>, i: int, j: int)
    requires
        valid_utf8(b),
        0 <= i <= j <= b.len(),
        is_char_boundary(b, i),
        is_char_boundary(b, j),
    ensures
        valid_utf8(b.subrange(0, j)),
        is_char_boundary(b.subrange(0, j), i),
    decreases b.len(),
{
    valid_utf8_split(b, j);
    let t = b.subrange(0, j);
    if i > 0 {
        let l = length_of_first_scalar(b);
        let rest = pop_first_scalar(b);
        assert(is_char_boundary(rest, i - l));
        assert(is_char_boundary(rest, j - l));
        assert(i - l >= 0);
        assert(t[0] == b[0]);
        assert(j >= 2 ==> t[1] == b[1]);
        assert(j >= 3 ==> t[2] == b[2]);
        assert(j >= 4 ==> t[3] == b[3]);
        assert(valid_first_scalar(t));
        assert(length_of_first_scalar(t) == l);
        assert(pop_first_scalar(t) =~= rest.subrange(0, j - l));
        lemma_boundary_of_prefix(rest, i - l, j - l);
    }
}

/// The part of `s` between two character boundaries.
pub fn substr(s: &str, start: usize, end: usize) -> (r: &str)
    requires
        start <= end <= s.spec_bytes().len(),
        is_char_boundary(s.spec_bytes(), start as int),
        is_char_boundary(s.spec_bytes(), end as int),
    ensures
        r.spec_bytes() =~= s.spec_bytes().subrange(start as int, end as int),
{
    proof {
        lemma_boundary_of_prefix(s.spec_bytes(), start as int, end as int);
    }
    let (head, _) = s.split_at(end);
    let (_, mid) = head.split_at(start);
    mid
}

/// Folding keeps UTF-8 valid: it only rewrites ASCII bytes, into ASCII bytes.
pub proof fn lemma_fold_valid_utf8(b: Seq<u8>)
    requires
        valid_utf8(b),
    ensures
        valid_utf8(fold(b)),
    decreases b.len(),
{
    let f = fold(b);
    if b.len() > 0 {
        let l = length_of_first_scalar(b);
        let rest = pop_first_scalar(b);
        if is_leading_byte_width_1(b[0]) {
            let c = f[0];
            assert(c <= 0x7f);
            assert((c & 0x7F) <= 0x7F) by (bit_vector);
            assert(valid_first_scalar(f));
            assert(length_of_first_scalar(f) == 1);
        } else {
            assert(forall|k: int| 0 <= k < l ==> b[k] >= 0x80);
            assert(forall|k: int| 0 <= k < l ==> #[trigger] f[k] == b[k]);
            assert(valid_first_scalar(f));
            assert(length_of_first_scalar(f) == l);
        }
        assert(pop_first_scalar(f) =~= fold(rest));
        lemma_fold_valid_utf8(rest);
    }
}

/// The byte after a whole character is again a character boundary.
pub proof fn lemma_boundary_after_scalar(b: Seq<u8>, p: int)
    requires
        valid_utf8(b),
        0 <= p < b.len(),
        is_char_boundary(b, p),
    ensures
        valid_first_scalar(b.skip(p)),
        p + length_of_first_scalar(b.skip(p)) <= b.len(),
        is_char_boundary(b, p + length_of_first_scalar(b.skip(p))),
    decreases b.len(),
{
    let rest = pop_first_scalar(b);
    let l = length_of_first_scalar(b);
    if p == 0 {
        assert(b.skip(0) =~= b);
        assert(is_char_boundary(rest, 0));
    } else {
        assert(is_char_boundary(rest, p - l));
        assert(p - l >= 0);
        assert(rest.skip(p - l) =~= b.skip(p));
        lemma_boundary_after_scalar(rest, p - l);
    }
}

/// Encoding distributes over concatenation.
pub proof fn lemma_encode_utf8_concat(a: Seq<char>, c: Seq<char>)
    ensures
        encode_utf8(a + c) =~= encode_utf8(a) + encode_utf8(c),
    decreases a.len(),
{
    if a.len() > 0 {
        assert((a + c).drop_first() =~= a.drop_first() + c);
        lemma_encode_utf8_concat(a.drop_first(), c);
    } else {
        assert(a + c =~= c);
    }
}

} // verus!
