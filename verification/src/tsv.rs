//! The meaning of an artifact's bytes: lines, tab-separated fields, the
//! folded sort keys, and the rank field.
use crate::order::{
    fold, lemma_lex_lt_transitive, lemma_starts_with_between, lemma_starts_with_not_below, lex_lt,
    starts_with,
};
use vstd::prelude::*;

verus! {

/// `\n`
pub const NEWLINE: u8 = 0x0a;

/// `\t`
pub const TAB: u8 = 0x09;

/// Index of the first `c` in `s`, or `s.len()` when there is none.
pub open spec fn index_of(s: Seq<u8>, c: u8) -> nat
    decreases s.len(),
{
    if s.len() == 0 {
        0
    } else if s[0] == c {
        0
    } else {
        1 + index_of(s.drop_first(), c)
    }
}

/// The lines of a text: the pieces between `\n`s, where a final `\n` does
/// not open an empty last line and an empty text has no lines.
pub open spec fn split_lines(t: Seq<u8>) -> Seq<Seq<u8>>
    decreases t.len(),
{
    if t.len() == 0 {
        seq![]
    } else {
        let i = index_of(t, NEWLINE);
        if i >= t.len() {
            seq![t]
        } else {
            seq![t.take(i as int)] + split_lines(t.skip(i as int + 1))
        }
    }
}

/// The tab-separated fields of a line (as `str::split('\t')` yields them).
pub open spec fn split_fields(s: Seq<u8>) -> Seq<Seq<u8>>
    decreases s.len(),
{
    let i = index_of(s, TAB);
    if i >= s.len() {
        seq![s]
    } else {
        seq![s.take(i as int)] + split_fields(s.skip(i as int + 1))
    }
}

/// The first field of a line: the crate name.
pub open spec fn first_field(line: Seq<u8>) -> Seq<u8> {
    line.take(index_of(line, TAB) as int)
}

/// The sort key of a line: its folded name.
pub open spec fn key_of(line: Seq<u8>) -> Seq<u8> {
    fold(first_field(line))
}

/// The sort keys of all lines, in order.
pub open spec fn keys_of(lines: Seq<Seq<u8>>) -> Seq<Seq<u8>> {
    lines.map_values(|l: Seq<u8>| key_of(l))
}

/// Every key sorts strictly below every later key (sorted and unique).
pub open spec fn strictly_sorted(keys: Seq<Seq<u8>>) -> bool {
    forall|i: int, j: int| 0 <= i < j < keys.len() ==> lex_lt(#[trigger] keys[i], #[trigger] keys[j])
}

/// Line `l` is the first line whose key does not sort strictly above the
/// key of the line before it.
pub open spec fn first_unsorted(keys: Seq<Seq<u8>>, l: int) -> bool {
    &&& 1 <= l < keys.len()
    &&& forall|k: int| 1 <= k < l ==> lex_lt(#[trigger] keys[k - 1], keys[k])
    &&& !lex_lt(keys[l - 1], keys[l])
}

/// A key lies below the search bound: strictly below `key`, or, when
/// `prefixed` is set, starting with `key`.
pub open spec fn below(k: Seq<u8>, key: Seq<u8>, prefixed: bool) -> bool {
    lex_lt(k, key) || (prefixed && starts_with(k, key))
}

/// How many keys lie below the search bound.
pub open spec fn count_below(keys: Seq<Seq<u8>>, key: Seq<u8>, prefixed: bool) -> nat
    decreases keys.len(),
{
    if keys.len() == 0 {
        0
    } else {
        count_below(keys.drop_last(), key, prefixed) + if below(keys.last(), key, prefixed) {
            1nat
        } else {
            0nat
        }
    }
}

/// `r` splits `keys` into the keys below the bound and the keys not below it.
pub open spec fn is_partition_point(
    keys: Seq<Seq<u8>>,
    key: Seq<u8>,
    prefixed: bool,
    r: int,
) -> bool {
    &&& 0 <= r <= keys.len()
    &&& forall|i: int| 0 <= i < r ==> below(#[trigger] keys[i], key, prefixed)
    &&& forall|i: int| r <= i < keys.len() ==> !below(#[trigger] keys[i], key, prefixed)
}

/// The value of a nonempty run of ASCII digits.
pub open spec fn digits_value(d: Seq<u8>) -> nat
    decreases d.len(),
{
    if d.len() == 0 {
        0
    } else {
        digits_value(d.drop_last()) * 10 + (d.last() - 0x30) as nat
    }
}

pub open spec fn is_digit(b: u8) -> bool {
    0x30 <= b <= 0x39
}

pub open spec fn all_digits(d: Seq<u8>) -> bool {
    forall|i: int| 0 <= i < d.len() ==> is_digit(#[trigger] d[i])
}

/// The digits of an unsigned number field: an optional leading `+` is dropped.
pub open spec fn unsigned_digits(s: Seq<u8>) -> Seq<u8> {
    if s.len() >= 1 && s[0] == 0x2b {
        s.drop_first()
    } else {
        s
    }
}

/// A rank field read as `u8`, as `<u8 as FromStr>` reads it: an optional
/// `+`, then one or more ASCII digits whose value is at most 255.
pub open spec fn parse_rank(s: Seq<u8>) -> Option<u8> {
    let d = unsigned_digits(s);
    if d.len() > 0 && all_digits(d) && digits_value(d) <= 255 {
        Some(digits_value(d) as u8)
    } else {
        None
    }
}

/// A field read as `u64`, as `<u64 as FromStr>` reads it: an optional `+`,
/// then one or more ASCII digits whose value fits in 64 bits.
pub open spec fn parse_u64(s: Seq<u8>) -> Option<u64> {
    let d = unsigned_digits(s);
    if d.len() > 0 && all_digits(d) && digits_value(d) <= u64::MAX {
        Some(digits_value(d) as u64)
    } else {
        None
    }
}

/// The fields of an entry line, by bytes.
pub struct EntryView {
    pub name: Seq<u8>,
    pub version: Seq<u8>,
    pub rank: u8,
}

/// A line of the names artifact read as an entry: exactly three fields,
/// the last a valid rank.
pub open spec fn parse_entry(line: Seq<u8>) -> Option<EntryView> {
    let f = split_fields(line);
    if f.len() == 3 && parse_rank(f[2]) is Some {
        Some(EntryView { name: f[0], version: f[1], rank: parse_rank(f[2])->0 })
    } else {
        None
    }
}

/// Line `l` is the first line that does not read as an entry.
pub open spec fn first_malformed(lines: Seq<Seq<u8>>, l: int) -> bool {
    &&& 0 <= l < lines.len()
    &&& forall|k: int| 0 <= k < l ==> #[trigger] parse_entry(lines[k]) is Some
    &&& parse_entry(lines[l]) is None
}

/// A line split at its first tab, as `str::split_once('\t')` splits it.
pub open spec fn split_once_tab(line: Seq<u8>) -> Option<(Seq<u8>, Seq<u8>)> {
    let i = index_of(line, TAB);
    if i < line.len() {
        Some((line.take(i as int), line.skip(i as int + 1)))
    } else {
        None
    }
}

/// The `(name, description)` pairs of the lines that have a tab, in order.
pub open spec fn description_pairs(lines: Seq<Seq<u8>>) -> Seq<(Seq<u8>, Seq<u8>)>
    decreases lines.len(),
{
    if lines.len() == 0 {
        seq![]
    } else {
        let rest = description_pairs(lines.drop_last());
        match split_once_tab(lines.last()) {
            Some(pair) => rest.push(pair),
            None => rest,
        }
    }
}

// ---------------------------------------------------------------------------
// Lemmas
/// `index_of` is the position found by a left-to-right scan.
pub proof fn lemma_index_of(s: Seq<u8>, c: u8, n: int)
    requires
        0 <= n <= s.len(),
        forall|k: int| 0 <= k < n ==> s[k] != c,
        n == s.len() || s[n] == c,
    ensures
        index_of(s, c) == n,
    decreases n,
{
    if n > 0 {
        lemma_index_of(s.drop_first(), c, n - 1);
    }
}

pub proof fn lemma_index_of_bound(s: Seq<u8>, c: u8)
    ensures
        index_of(s, c) <= s.len(),
        index_of(s, c) < s.len() ==> s[index_of(s, c) as int] == c,
        forall|k: int| 0 <= k < index_of(s, c) ==> s[k] != c,
    decreases s.len(),
{
    if s.len() > 0 && s[0] != c {
        lemma_index_of_bound(s.drop_first(), c);
        assert forall|k: int| 0 <= k < index_of(s, c) implies s[k] != c by {
            if k > 0 {
                assert(s[k] == s.drop_first()[k - 1]);
            }
        }
    }
}

/// Cutting the first line off the text that starts at `cur`.
pub proof fn lemma_split_lines_step(t: Seq<u8>, cur: int, i: int)
    requires
        0 <= cur <= i < t.len(),
        t[i] == NEWLINE,
        forall|k: int| cur <= k < i ==> t[k] != NEWLINE,
    ensures
        split_lines(t.skip(cur)) =~= seq![t.subrange(cur, i)] + split_lines(t.skip(i as int + 1)),
{
    let s = t.skip(cur);
    lemma_index_of(s, NEWLINE, i - cur);
    assert(s.take(i - cur) =~= t.subrange(cur, i));
    assert(s.skip(i - cur + 1) =~= t.skip(i as int + 1));
}

/// The text that starts at `cur` holds at most one line when it has no `\n`.
pub proof fn lemma_split_lines_last(t: Seq<u8>, cur: int)
    requires
        0 <= cur <= t.len(),
        forall|k: int| cur <= k < t.len() ==> t[k] != NEWLINE,
    ensures
        cur == t.len() ==> split_lines(t.skip(cur)) =~= Seq::<Seq<u8>>::empty(),
        cur < t.len() ==> split_lines(t.skip(cur)) =~= seq![t.skip(cur)],
{
    let s = t.skip(cur);
    lemma_index_of(s, NEWLINE, s.len() as int);
}

/// The fields of a line with exactly two tabs, at `t1` and `t2`.
pub proof fn lemma_split_fields_three(s: Seq<u8>, t1: int, t2: int)
    requires
        0 <= t1 < t2 < s.len(),
        s[t1] == TAB,
        s[t2] == TAB,
        forall|k: int| 0 <= k < t1 ==> s[k] != TAB,
        forall|k: int| t1 < k < t2 ==> s[k] != TAB,
        forall|k: int| t2 < k < s.len() ==> s[k] != TAB,
    ensures
        split_fields(s) =~= seq![s.take(t1), s.subrange(t1 + 1, t2), s.skip(t2 + 1)],
{
    lemma_index_of(s, TAB, t1);
    let s1 = s.skip(t1 + 1);
    lemma_index_of(s1, TAB, t2 - t1 - 1);
    let s2 = s1.skip(t2 - t1);
    assert(s2 =~= s.skip(t2 + 1));
    lemma_index_of(s2, TAB, s2.len() as int);
    assert(s1.take(t2 - t1 - 1) =~= s.subrange(t1 + 1, t2));
    assert(s1.skip(t2 - t1 - 1 + 1) =~= s2);
    assert(split_fields(s2) =~= seq![s2]);
    assert(split_fields(s1) =~= seq![s1.take(t2 - t1 - 1)] + split_fields(s2));
}

/// A line without a tab is one field.
pub proof fn lemma_split_fields_none(s: Seq<u8>)
    requires
        forall|k: int| 0 <= k < s.len() ==> s[k] != TAB,
    ensures
        split_fields(s) =~= seq![s],
{
    lemma_index_of(s, TAB, s.len() as int);
}

/// A line with exactly one tab, at `t1`, is two fields.
pub proof fn lemma_split_fields_two(s: Seq<u8>, t1: int)
    requires
        0 <= t1 < s.len(),
        s[t1] == TAB,
        forall|k: int| 0 <= k < t1 ==> s[k] != TAB,
        forall|k: int| t1 < k < s.len() ==> s[k] != TAB,
    ensures
        split_fields(s).len() == 2,
{
    lemma_index_of(s, TAB, t1);
    let s1 = s.skip(t1 + 1);
    lemma_index_of(s1, TAB, s1.len() as int);
    assert(split_fields(s1) =~= seq![s1]);
}

/// A line with three or more tabs is four or more fields.
pub proof fn lemma_split_fields_many(s: Seq<u8>, t1: int, t2: int, t3: int)
    requires
        0 <= t1 < t2 < t3 < s.len(),
        s[t1] == TAB,
        s[t2] == TAB,
        s[t3] == TAB,
        forall|k: int| 0 <= k < t1 ==> s[k] != TAB,
        forall|k: int| t1 < k < t2 ==> s[k] != TAB,
    ensures
        split_fields(s).len() >= 4,
{
    lemma_index_of(s, TAB, t1);
    let s1 = s.skip(t1 + 1);
    lemma_index_of(s1, TAB, t2 - t1 - 1);
    let s2 = s1.skip(t2 - t1);
    lemma_index_of_bound(s2, TAB);
    assert(s2[t3 - t2 - 1] == TAB);
    assert(index_of(s2, TAB) < s2.len());
    lemma_split_fields_nonempty(s2.skip(index_of(s2, TAB) as int + 1));
    assert(s1.skip(t2 - t1 - 1 + 1) =~= s2);
    assert(split_fields(s2).len() >= 2);
    assert(split_fields(s1).len() >= 3);
}

proof fn lemma_split_fields_nonempty(s: Seq<u8>)
    ensures
        split_fields(s).len() >= 1,
    decreases s.len(),
{
    lemma_index_of_bound(s, TAB);
    if index_of(s, TAB) < s.len() {
        lemma_split_fields_nonempty(s.skip(index_of(s, TAB) as int + 1));
    }
}

/// With no tab, a line is its own first field; otherwise the first field ends at the first tab.
pub proof fn lemma_first_field(s: Seq<u8>, n: int)
    requires
        0 <= n <= s.len(),
        forall|k: int| 0 <= k < n ==> s[k] != TAB,
        n == s.len() || s[n] == TAB,
    ensures
        first_field(s) =~= s.take(n),
        split_fields(s)[0] =~= s.take(n),
{
    lemma_index_of(s, TAB, n);
}

/// The keys below the bound come first, when the keys are sorted.
pub proof fn lemma_below_monotonic(y: Seq<u8>, x: Seq<u8>, key: Seq<u8>, prefixed: bool)
    requires
        lex_lt(y, x),
        below(x, key, prefixed),
    ensures
        below(y, key, prefixed),
{
    if lex_lt(x, key) {
        lemma_lex_lt_transitive(y, x, key);
    } else if !lex_lt(y, key) {
        lemma_starts_with_between(key, y, x);
    }
}

/// A partition point is unique.
pub proof fn lemma_partition_point_unique(
    keys: Seq<Seq<u8>>,
    key: Seq<u8>,
    prefixed: bool,
    r1: int,
    r2: int,
)
    requires
        is_partition_point(keys, key, prefixed, r1),
        is_partition_point(keys, key, prefixed, r2),
    ensures
        r1 == r2,
{
    if r1 < r2 {
        assert(below(keys[r1], key, prefixed));
    } else if r2 < r1 {
        assert(below(keys[r2], key, prefixed));
    }
}

/// Over sorted keys, the number of keys below the bound is the partition point.
pub proof fn lemma_count_below_partition(keys: Seq<Seq<u8>>, key: Seq<u8>, prefixed: bool)
    requires
        strictly_sorted(keys),
    ensures
        is_partition_point(keys, key, prefixed, count_below(keys, key, prefixed) as int),
    decreases keys.len(),
{
    if keys.len() > 0 {
        let init = keys.drop_last();
        assert(strictly_sorted(init)) by {
            assert forall|i: int, j: int| 0 <= i < j < init.len() implies lex_lt(
                #[trigger] init[i],
                #[trigger] init[j],
            ) by {
                assert(init[i] == keys[i]);
                assert(init[j] == keys[j]);
            }
        }
        lemma_count_below_partition(init, key, prefixed);
        let n = keys.len() - 1;
        if below(keys.last(), key, prefixed) {
            assert forall|i: int| 0 <= i < keys.len() implies below(
                #[trigger] keys[i],
                key,
                prefixed,
            ) by {
                if i < n {
                    lemma_below_monotonic(keys[i], keys[n], key, prefixed);
                }
            }
            assert(is_partition_point(init, key, prefixed, n));
            lemma_partition_point_unique(
                init,
                key,
                prefixed,
                n,
                count_below(init, key, prefixed) as int,
            );
        } else {
            assert forall|i: int| 0 <= i < keys.len() implies (i < count_below(
                init,
                key,
                prefixed,
            ) <==> below(#[trigger] keys[i], key, prefixed)) by {
                if i < n {
                    assert(keys[i] == init[i]);
                }
            }
        }
    }
}

/// Over sorted keys, the keys that start with `key` are exactly those at
/// positions from `count_below(.., false)` up to `count_below(.., true)`:
/// a prefix query is two binary searches.
pub proof fn lemma_prefix_block(keys: Seq<Seq<u8>>, key: Seq<u8>)
    requires
        strictly_sorted(keys),
    ensures
        count_below(keys, key, false) <= count_below(keys, key, true) <= keys.len(),
        forall|i: int|
            0 <= i < keys.len() ==> (count_below(keys, key, false) <= i < count_below(
                keys,
                key,
                true,
            ) <==> starts_with(#[trigger] keys[i], key)),
{
    lemma_count_below_partition(keys, key, false);
    lemma_count_below_partition(keys, key, true);
    let s = count_below(keys, key, false) as int;
    let e = count_below(keys, key, true) as int;
    if e < s {
        assert(!below(keys[e], key, true));
        assert(below(keys[e], key, false));
    }
    assert forall|i: int| 0 <= i < keys.len() implies (s <= i < e <==> starts_with(
        #[trigger] keys[i],
        key,
    )) by {
        if starts_with(keys[i], key) {
            lemma_starts_with_not_below(keys[i], key);
        }
    }
}

/// Values of digit strings grow as digits are appended.
proof fn lemma_digits_value_prefix(d: Seq<u8>, k: int)
    requires
        0 <= k <= d.len(),
        all_digits(d),
    ensures
        digits_value(d.take(k)) <= digits_value(d),
    decreases d.len() - k,
{
    if k < d.len() {
        lemma_digits_value_prefix(d, k + 1);
        let p = d.take(k + 1);
        assert(p.drop_last() =~= d.take(k));
        assert(is_digit(d[k]));
    } else {
        assert(d.take(k) =~= d);
    }
}

/// A rank field read as `u8`: an optional `+`, then ASCII digits worth at most 255.
pub fn parse_rank_field(s: &[u8]) -> (r: Option<u8>)
    ensures
        r == parse_rank(s@),
{
    let n = s.len();
    let mut i: usize = 0;
    if n >= 1 && s[0] == 0x2b {
        i = 1;
    }
    let start = i;
    let ghost d = unsigned_digits(s@);
    assert(d =~= s@.skip(start as int));
    if i == n {
        return None;
    }
    let mut value: u32 = 0;
    while i < n
        invariant
            start <= i <= n,
            n == s@.len(),
            start < n,
            d =~= s@.skip(start as int),
            d == unsigned_digits(s@),
            value == digits_value(d.take(i - start)),
            value <= 255,
            all_digits(d.take(i - start)),
        decreases n - i,
    {
        let c = s[i];
        assert(d[i - start] == c);
        if c < 0x30 || c > 0x39 {
            assert(!is_digit(d[i - start]));
            return None;
        }
        let ghost p = d.take(i - start + 1);
        assert(p.drop_last() =~= d.take(i - start));
        assert(p.last() == c);
        assert(digits_value(p) == value * 10 + (c - 0x30));
        value = value * 10 + (c - 0x30) as u32;
        i = i + 1;
        assert(all_digits(d.take(i - start))) by {
            assert forall|k: int| 0 <= k < i - start implies is_digit(#[trigger] d.take(i - start)[k]) by {
                if k < i - start - 1 {
                    assert(d.take(i - start)[k] == d.take(i - start - 1)[k]);
                }
            }
        }
        if value > 255 {
            proof {
                if all_digits(d) {
                    lemma_digits_value_prefix(d, i - start);
                }
            }
            return None;
        }
    }
    assert(d.take(n - start) =~= d);
    Some(value as u8)
}

/// The name of an entry is the first field of its line.
pub proof fn lemma_first_field_is_field_zero(s: Seq<u8>)
    ensures
        split_fields(s)[0] =~= first_field(s),
{
    lemma_index_of_bound(s, TAB);
    if index_of(s, TAB) >= s.len() {
        assert(s.take(s.len() as int) =~= s);
    }
}

/// A field read as `u64`: an optional `+`, then ASCII digits whose value fits in 64 bits.
pub fn parse_u64_field(s: &[u8]) -> (r: Option<u64>)
    ensures
        r == parse_u64(s@),
{
    let n = s.len();
    let mut i: usize = 0;
    if n >= 1 && s[0] == 0x2b {
        i = 1;
    }
    let start = i;
    let ghost d = unsigned_digits(s@);
    assert(d =~= s@.skip(start as int));
    if i == n {
        return None;
    }
    let mut value: u64 = 0;
    while i < n
        invariant
            start <= i <= n,
            n == s@.len(),
            start < n,
            d =~= s@.skip(start as int),
            d == unsigned_digits(s@),
            value == digits_value(d.take(i - start)),
            all_digits(d.take(i - start)),
        decreases n - i,
    {
        let c = s[i];
        assert(d[i - start] == c);
        if c < 0x30 || c > 0x39 {
            assert(!is_digit(d[i - start]));
            return None;
        }
        let ghost p = d.take(i - start + 1);
        assert(p.drop_last() =~= d.take(i - start));
        assert(p.last() == c);
        assert(digits_value(p) == value * 10 + (c - 0x30));
        let next: u128 = value as u128 * 10 + (c - 0x30) as u128;
        i = i + 1;
        assert(all_digits(d.take(i - start))) by {
            assert forall|k: int| 0 <= k < i - start implies is_digit(#[trigger] d.take(i - start)[k]) by {
                if k < i - start - 1 {
                    assert(d.take(i - start)[k] == d.take(i - start - 1)[k]);
                }
            }
        }
        if next > 0xFFFF_FFFF_FFFF_FFFF {
            proof {
                if all_digits(d) {
                    lemma_digits_value_prefix(d, i - start);
                }
            }
            return None;
        }
        value = next as u64;
    }
    assert(d.take(n - start) =~= d);
    Some(value)
}

} // verus!
