//! The folded byte order that artifacts are sorted by: names compare
//! byte-wise after ASCII-lowercasing, with `-` and `_` treated as the same
//! character.
use vstd::prelude::*;

verus! {

/// The folding of one byte: ASCII upper case becomes lower case and `-`
/// becomes `_`; every other byte is kept.
pub open spec fn fold_byte(b: u8) -> u8 {
    if 0x41 <= b <= 0x5a {
        (b + 0x20) as u8
    } else if b == 0x2d {
        0x5f
    } else {
        b
    }
}

/// The folding of a byte string, byte by byte.
pub open spec fn fold(s: Seq<u8>) -> Seq<u8> {
    s.map_values(|b: u8| fold_byte(b))
}

/// Strict lexicographic order on byte strings (the order of `[u8]`).
pub open spec fn lex_lt(a: Seq<u8>, b: Seq<u8>) -> bool
    decreases a.len(),
{
    if b.len() == 0 {
        false
    } else if a.len() == 0 {
        true
    } else if a[0] != b[0] {
        a[0] < b[0]
    } else {
        lex_lt(a.drop_first(), b.drop_first())
    }
}

/// `p` is a prefix of `s`.
pub open spec fn starts_with(s: Seq<u8>, p: Seq<u8>) -> bool {
    p.len() <= s.len() && s.take(p.len() as int) =~= p
}

/// Folding a byte, in executable code.
pub fn fold_byte_exec(b: u8) -> (r: u8)
    ensures
        r == fold_byte(b),
{
    if 0x41 <= b && b <= 0x5a {
        b + 0x20
    } else if b == 0x2d {
        0x5f
    } else {
        b
    }
}

/// Folding is idempotent.
pub proof fn lemma_fold_idempotent(s: Seq<u8>)
    ensures
        fold(fold(s)) =~= fold(s),
{
}

/// Folding commutes with taking and dropping.
pub proof fn lemma_fold_subrange(s: Seq<u8>, i: int, j: int)
    requires
        0 <= i <= j <= s.len(),
    ensures
        fold(s.subrange(i, j)) =~= fold(s).subrange(i, j),
{
}

pub proof fn lemma_lex_lt_irreflexive(a: Seq<u8>)
    ensures
        !lex_lt(a, a),
    decreases a.len(),
{
    if a.len() > 0 {
        lemma_lex_lt_irreflexive(a.drop_first());
    }
}

pub proof fn lemma_lex_lt_transitive(a: Seq<u8>, b: Seq<u8>, c: Seq<u8>)
    requires
        lex_lt(a, b),
        lex_lt(b, c),
    ensures
        lex_lt(a, c),
    decreases a.len(),
{
    if a.len() > 0 && b.len() > 0 && c.len() > 0 && a[0] == b[0] && b[0] == c[0] {
        lemma_lex_lt_transitive(a.drop_first(), b.drop_first(), c.drop_first());
    }
}

pub proof fn lemma_lex_lt_total(a: Seq<u8>, b: Seq<u8>)
    ensures
        a =~= b || lex_lt(a, b) || lex_lt(b, a),
    decreases a.len(),
{
    if a.len() > 0 && b.len() > 0 && a[0] == b[0] {
        lemma_lex_lt_total(a.drop_first(), b.drop_first());
        if a.drop_first() =~= b.drop_first() {
            assert(a =~= seq![a[0]] + a.drop_first());
            assert(b =~= seq![b[0]] + b.drop_first());
        }
    }
}

pub proof fn lemma_lex_lt_asymmetric(a: Seq<u8>, b: Seq<u8>)
    requires
        lex_lt(a, b),
    ensures
        !lex_lt(b, a),
{
    if lex_lt(b, a) {
        lemma_lex_lt_transitive(a, b, a);
        lemma_lex_lt_irreflexive(a);
    }
}

/// Once a common prefix of length `i` has been passed, the order is decided
/// by what follows it.
proof fn lemma_lex_lt_skip(a: Seq<u8>, b: Seq<u8>, i: int)
    requires
        0 <= i <= a.len(),
        i <= b.len(),
        a.take(i) =~= b.take(i),
    ensures
        lex_lt(a, b) == lex_lt(a.skip(i), b.skip(i)),
    decreases i,
{
    if i > 0 {
        assert(a[0] == a.take(i)[0]);
        assert(b[0] == b.take(i)[0]);
        assert(a.drop_first().take(i - 1) =~= b.drop_first().take(i - 1)) by {
            assert forall|k: int| 0 <= k < i - 1 implies #[trigger] a.drop_first().take(i - 1)[k]
                == b.drop_first().take(i - 1)[k] by {
                assert(a.take(i)[k + 1] == b.take(i)[k + 1]);
            }
        }
        lemma_lex_lt_skip(a.drop_first(), b.drop_first(), i - 1);
        assert(a.drop_first().skip(i - 1) =~= a.skip(i));
        assert(b.drop_first().skip(i - 1) =~= b.skip(i));
    } else {
        assert(a.skip(0) =~= a);
        assert(b.skip(0) =~= b);
    }
}

/// A string that starts with `p` never sorts below `p`.
pub proof fn lemma_starts_with_not_below(s: Seq<u8>, p: Seq<u8>)
    requires
        starts_with(s, p),
    ensures
        !lex_lt(s, p),
    decreases p.len(),
{
    if p.len() > 0 {
        assert(s[0] == s.take(p.len() as int)[0]);
        assert(starts_with(s.drop_first(), p.drop_first())) by {
            assert forall|k: int| 0 <= k < p.len() - 1 implies s.drop_first().take(
                p.len() - 1,
            )[k] == p.drop_first()[k] by {
                assert(s.take(p.len() as int)[k + 1] == p[k + 1]);
            }
        }
        lemma_starts_with_not_below(s.drop_first(), p.drop_first());
    }
}

/// If `p ≤ y < x` and `x` starts with `p`, then `y` starts with `p`: the
/// strings that start with `p` form a contiguous block in sorted order.
pub proof fn lemma_starts_with_between(p: Seq<u8>, y: Seq<u8>, x: Seq<u8>)
    requires
        !lex_lt(y, p),
        lex_lt(y, x),
        starts_with(x, p),
    ensures
        starts_with(y, p),
    decreases p.len(),
{
    if p.len() > 0 {
        assert(x[0] == x.take(p.len() as int)[0]);
        assert(y.len() > 0);
        assert(y[0] == p[0]);
        assert(starts_with(x.drop_first(), p.drop_first())) by {
            assert forall|k: int| 0 <= k < p.len() - 1 implies x.drop_first().take(
                p.len() - 1,
            )[k] == p.drop_first()[k] by {
                assert(x.take(p.len() as int)[k + 1] == p[k + 1]);
            }
        }
        lemma_starts_with_between(p.drop_first(), y.drop_first(), x.drop_first());
        assert forall|k: int| 0 <= k < p.len() implies y.take(p.len() as int)[k] == p[k] by {
            if k > 0 {
                assert(y.drop_first().take(p.len() - 1)[k - 1] == p.drop_first()[k - 1]);
            }
        }
    }
}

/// Whether `fold(name)` sorts strictly below the already folded `key`.
pub fn folded_less_than_key(name: &[u8], key: &[u8]) -> (r: bool)
    ensures
        r == lex_lt(fold(name@), key@),
{
    let ghost a = fold(name@);
    let mut i: usize = 0;
    while i < name.len() && i < key.len()
        invariant
            i <= name@.len(),
            i <= key@.len(),
            a == fold(name@),
            forall|k: int| 0 <= k < i ==> a[k] == key@[k],
        decreases name@.len() - i,
    {
        let c = fold_byte_exec(name[i]);
        if c != key[i] {
            proof {
                assert(a.take(i as int) =~= key@.take(i as int));
                lemma_lex_lt_skip(a, key@, i as int);
            }
            return c < key[i];
        }
        i = i + 1;
    }
    proof {
        assert(a.take(i as int) =~= key@.take(i as int));
        lemma_lex_lt_skip(a, key@, i as int);
    }
    i == name.len() && i < key.len()
}

/// Whether `fold(a)` sorts strictly below `fold(b)`.
pub fn folded_less(a: &[u8], b: &[u8]) -> (r: bool)
    ensures
        r == lex_lt(fold(a@), fold(b@)),
{
    let ghost fa = fold(a@);
    let ghost fb = fold(b@);
    let mut i: usize = 0;
    while i < a.len() && i < b.len()
        invariant
            i <= a@.len(),
            i <= b@.len(),
            fa == fold(a@),
            fb == fold(b@),
            forall|k: int| 0 <= k < i ==> fa[k] == fb[k],
        decreases a@.len() - i,
    {
        let x = fold_byte_exec(a[i]);
        let y = fold_byte_exec(b[i]);
        if x != y {
            proof {
                assert(fa.take(i as int) =~= fb.take(i as int));
                lemma_lex_lt_skip(fa, fb, i as int);
            }
            return x < y;
        }
        i = i + 1;
    }
    proof {
        assert(fa.take(i as int) =~= fb.take(i as int));
        lemma_lex_lt_skip(fa, fb, i as int);
    }
    i == a.len() && i < b.len()
}

/// Whether `fold(name)` equals the already folded `key`.
pub fn folded_equals_key(name: &[u8], key: &[u8]) -> (r: bool)
    ensures
        r == (fold(name@) =~= key@),
{
    if name.len() != key.len() {
        return false;
    }
    let mut i: usize = 0;
    while i < name.len()
        invariant
            i <= name@.len(),
            name@.len() == key@.len(),
            forall|k: int| 0 <= k < i ==> fold(name@)[k] == key@[k],
        decreases name@.len() - i,
    {
        if fold_byte_exec(name[i]) != key[i] {
            return false;
        }
        i = i + 1;
    }
    true
}

/// Whether `fold(name)` starts with the already folded `key`.
pub fn folded_starts_with(name: &[u8], key: &[u8]) -> (r: bool)
    ensures
        r == starts_with(fold(name@), key@),
{
    if name.len() < key.len() {
        return false;
    }
    let mut i: usize = 0;
    while i < key.len()
        invariant
            i <= key@.len(),
            key@.len() <= name@.len(),
            forall|k: int| 0 <= k < i ==> fold(name@)[k] == key@[k],
        decreases key@.len() - i,
    {
        if fold_byte_exec(name[i]) != key[i] {
            assert(fold(name@).take(key@.len() as int)[i as int] != key@[i as int]);
            return false;
        }
        i = i + 1;
    }
    true
}

/// The folded form of a byte string.
pub fn fold_bytes(s: &[u8]) -> (r: Vec<u8>)
    ensures
        r@ =~= fold(s@),
{
    let mut r: Vec<u8> = Vec::new();
    let mut i: usize = 0;
    while i < s.len()
        invariant
            i <= s@.len(),
            r@ =~= fold(s@.take(i as int)),
        decreases s@.len() - i,
    {
        r.push(fold_byte_exec(s[i]));
        i = i + 1;
        assert(fold(s@.take(i as int)) =~= fold(s@.take(i - 1)).push(fold_byte(s@[i - 1])));
    }
    assert(s@.take(i as int) =~= s@);
    r
}

/// Whether `a` sorts strictly below `b`, byte-wise.
pub fn bytes_less(a: &[u8], b: &[u8]) -> (r: bool)
    ensures
        r == lex_lt(a@, b@),
{
    let mut i: usize = 0;
    while i < a.len() && i < b.len()
        invariant
            i <= a@.len(),
            i <= b@.len(),
            forall|k: int| 0 <= k < i ==> a@[k] == b@[k],
        decreases a@.len() - i,
    {
        if a[i] != b[i] {
            proof {
                assert(a@.take(i as int) =~= b@.take(i as int));
                lemma_lex_lt_skip(a@, b@, i as int);
            }
            return a[i] < b[i];
        }
        i = i + 1;
    }
    proof {
        assert(a@.take(i as int) =~= b@.take(i as int));
        lemma_lex_lt_skip(a@, b@, i as int);
    }
    i == a.len() && i < b.len()
}

/// Whether two byte strings are equal.
pub fn bytes_equal(a: &[u8], b: &[u8]) -> (r: bool)
    ensures
        r == (a@ == b@),
{
    if a.len() != b.len() {
        return false;
    }
    let mut i: usize = 0;
    while i < a.len()
        invariant
            i <= a@.len(),
            a@.len() == b@.len(),
            forall|k: int| 0 <= k < i ==> a@[k] == b@[k],
        decreases a@.len() - i,
    {
        if a[i] != b[i] {
            return false;
        }
        i = i + 1;
    }
    assert(a@ =~= b@);
    true
}

/// Position `i` is where `a` first differs from `b` in a way that puts `a`
/// first: before `i` they agree, and at `i` either `a`'s byte is smaller or
/// `a` has ended while `b` goes on.
pub open spec fn first_difference_below(a: Seq<u8>, b: Seq<u8>, i: int) -> bool {
    &&& 0 <= i <= a.len()
    &&& i <= b.len()
    &&& forall|k: int| 0 <= k < i ==> a[k] == b[k]
    &&& ((i < a.len() && i < b.len() && a[i] < b[i]) || (i == a.len() && i < b.len()))
}

/// Byte strings compare by their first differing byte, as unsigned numbers,
/// and a proper prefix comes before the longer string.
pub proof fn lemma_lex_lt_first_difference(a: Seq<u8>, b: Seq<u8>)
    ensures
        lex_lt(a, b) <==> exists|i: int| first_difference_below(a, b, i),
    decreases a.len(),
{
    if b.len() == 0 {
        assert forall|i: int| !first_difference_below(a, b, i) by {}
    } else if a.len() == 0 {
        assert(first_difference_below(a, b, 0));
    } else if a[0] != b[0] {
        if a[0] < b[0] {
            assert(first_difference_below(a, b, 0));
        } else {
            assert forall|i: int| !first_difference_below(a, b, i) by {
                if first_difference_below(a, b, i) && i > 0 {
                    assert(a[0] == b[0]);
                }
            }
        }
    } else {
        let a1 = a.drop_first();
        let b1 = b.drop_first();
        lemma_lex_lt_first_difference(a1, b1);
        if lex_lt(a1, b1) {
            let i = choose|i: int| first_difference_below(a1, b1, i);
            assert forall|k: int| 0 <= k < i + 1 implies a[k] == b[k] by {
                if k > 0 {
                    assert(a[k] == a1[k - 1]);
                    assert(b[k] == b1[k - 1]);
                }
            }
            assert(first_difference_below(a, b, i + 1));
        } else {
            assert forall|i: int| !first_difference_below(a, b, i) by {
                if first_difference_below(a, b, i) {
                    assert(i > 0);
                    assert forall|k: int| 0 <= k < i - 1 implies a1[k] == b1[k] by {
                        assert(a[k + 1] == b[k + 1]);
                    }
                    assert(first_difference_below(a1, b1, i - 1));
                }
            }
        }
    }
}

/// On single bytes the order is the order of the bytes as numbers.
pub proof fn lemma_lex_lt_single(x: u8, y: u8)
    ensures
        lex_lt(seq![x], seq![y]) <==> x < y,
{
    let a = seq![x];
    let b = seq![y];
    assert(a.len() == 1 && a[0] == x);
    assert(b.len() == 1 && b[0] == y);
    assert(a.drop_first() =~= Seq::<u8>::empty());
    assert(b.drop_first() =~= Seq::<u8>::empty());
    assert(!lex_lt(Seq::<u8>::empty(), Seq::<u8>::empty()));
}

/// Two bytes that names treat as the same character: equal bytes, an ASCII
/// capital and its lower-case letter, or `-` and `_`.
pub open spec fn same_name_char(x: u8, y: u8) -> bool {
    ||| x == y
    ||| ('A' as u8) <= x <= ('Z' as u8) && y == x + 32
    ||| ('A' as u8) <= y <= ('Z' as u8) && x == y + 32
    ||| x == ('-' as u8) && y == ('_' as u8)
    ||| x == ('_' as u8) && y == ('-' as u8)
}

/// Folding makes two bytes equal exactly when names treat them as the same
/// character: it ignores ASCII case and does not tell `-` from `_`, and
/// tells every other pair of bytes apart.
pub proof fn lemma_fold_byte_same_char(x: u8, y: u8)
    ensures
        fold_byte(x) == fold_byte(y) <==> same_name_char(x, y),
{
}

/// Two byte strings fold the same exactly when they have the same length and
/// are the same character by character, up to ASCII case and `-` against `_`.
pub proof fn lemma_fold_same_name(s: Seq<u8>, t: Seq<u8>)
    ensures
        fold(s) == fold(t) <==> s.len() == t.len() && forall|k: int|
            0 <= k < s.len() ==> #[trigger] same_name_char(s[k], t[k]),
{
    if fold(s) == fold(t) {
        assert(fold(s).len() == s.len());
        assert(fold(t).len() == t.len());
        assert forall|k: int| 0 <= k < s.len() implies #[trigger] same_name_char(s[k], t[k]) by {
            assert(fold(s)[k] == fold_byte(s[k]));
            assert(fold(t)[k] == fold_byte(t[k]));
            lemma_fold_byte_same_char(s[k], t[k]);
        }
    }
    if s.len() == t.len() && forall|k: int| 0 <= k < s.len() ==> #[trigger] same_name_char(s[k], t[k]) {
        assert forall|k: int| 0 <= k < s.len() implies fold(s)[k] == fold(t)[k] by {
            lemma_fold_byte_same_char(s[k], t[k]);
        }
        assert(fold(s) =~= fold(t));
    }
}

} // verus!
