//! Producing the artifacts from the tables of a crates.io database dump:
//! the crates, their all-time downloads, their versions and their default
//! versions. Reading the dump itself is the caller's business.
use crate::order::{
    bytes_equal, folded_less, lemma_lex_lt_irreflexive, lemma_lex_lt_total, lemma_lex_lt_transitive,
    lex_lt,
};
use crate::decode::{string_from_utf8, zstd_encode_all, zstd_encoded};
use crate::rank::{rank_from_downloads, rank_of};
use crate::order::{fold, fold_byte, lemma_fold_subrange};
use crate::read::text_rejection;
use crate::tsv::{
    all_digits, digits_value, first_field, first_malformed, first_unsorted, index_of, key_of, keys_of,
    lemma_index_of, lemma_index_of_bound, lemma_split_fields_three, parse_entry, parse_rank,
    split_fields, split_lines, strictly_sorted, unsigned_digits, EntryView, NEWLINE, TAB,
    description_pairs, parse_u64, parse_u64_field, split_once_tab,
};
use crate::format::{flatten_whitespace, join_words, words};
use std::collections::HashMap;
use std::io::Error as IoError;
use vstd::multiset::Multiset;
use vstd::prelude::*;
use vstd::string::StringSliceAdditionalSpecFns;
use vstd::utf8::{encode_utf8, valid_utf8};

verus! {

broadcast use vstd::seq_lib::group_to_multiset_ensures;

/// Compression level used when producing artifacts.
pub const ZSTD_LEVEL: i32 = 19;

/// A byte crates.io allows in a crate name: ASCII letters and digits, `-` and `_`.
pub open spec fn is_name_byte(b: u8) -> bool {
    (0x30 <= b <= 0x39) || (0x41 <= b <= 0x5a) || (0x61 <= b <= 0x7a) || b == 0x2d || b == 0x5f
}

/// Whether every byte of `name` is allowed in a crate name, so that the name
/// cannot corrupt the line-oriented format.
pub fn is_crate_name(name: &str) -> (r: bool)
    ensures
        r == forall|k: int| 0 <= k < name.spec_bytes().len() ==> is_name_byte(#[trigger] name.spec_bytes()[k]),
{
    let b = name.as_bytes();
    let mut i: usize = 0;
    while i < b.len()
        invariant
            b@ == name.spec_bytes(),
            i <= b@.len(),
            forall|k: int| 0 <= k < i ==> is_name_byte(#[trigger] b@[k]),
        decreases b@.len() - i,
    {
        let c = b[i];
        let ok = (0x30 <= c && c <= 0x39) || (0x41 <= c && c <= 0x5a) || (0x61 <= c && c <= 0x7a)
            || c == 0x2d || c == 0x5f;
        if !ok {
            return false;
        }
        i = i + 1;
    }
    true
}

/// The position of the first header equal to `column`, so that columns are
/// found by name whatever their order and whatever other columns there are.
pub fn column_index(headers: &Vec<String>, column: &str) -> (r: Option<usize>)
    ensures
        match r {
            Some(i) => i < headers@.len() && encode_utf8(headers@[i as int]@) == column.spec_bytes()
                && forall|k: int|
                0 <= k < i ==> encode_utf8(#[trigger] headers@[k]@) != column.spec_bytes(),
            None => forall|k: int|
                0 <= k < headers@.len() ==> encode_utf8(#[trigger] headers@[k]@)
                    != column.spec_bytes(),
        },
{
    let mut i: usize = 0;
    while i < headers.len()
        invariant
            i <= headers@.len(),
            forall|k: int|
                0 <= k < i ==> encode_utf8(#[trigger] headers@[k]@) != column.spec_bytes(),
        decreases headers@.len() - i,
    {
        if bytes_equal(headers[i].as_str().as_bytes(), column.as_bytes()) {
            return Some(i);
        }
        i = i + 1;
    }
    None
}

/// The crate row a record of the crates table gives: `None` when the record
/// has no numeric id or no name (it is skipped), `Err` with the name when the
/// name has a byte crates.io does not allow, else the name, the id and the
/// flattened description (empty when the record has none).
pub fn crate_row(id: Option<&str>, name: Option<&str>, description: Option<&str>) -> (r: Result<
    Option<(String, u64, String)>,
    String,
>)
    ensures
        match r {
            Ok(None) => id is None || name is None || parse_u64(id->0.spec_bytes()) is None,
            Err(s) => {
                &&& id is Some && name is Some && parse_u64(id->0.spec_bytes()) is Some
                &&& !(forall|k: int|
                    0 <= k < name->0.spec_bytes().len() ==> is_name_byte(
                        #[trigger] name->0.spec_bytes()[k],
                    ))
                &&& s@ == name->0@
            },
            Ok(Some(row)) => {
                &&& id is Some && name is Some
                &&& parse_u64(id->0.spec_bytes()) == Some(row.1)
                &&& forall|k: int|
                    0 <= k < name->0.spec_bytes().len() ==> is_name_byte(
                        #[trigger] name->0.spec_bytes()[k],
                    )
                &&& row.0@ == name->0@
                &&& encode_utf8(row.2@) == join_words(
                    words(
                        match description {
                            Some(d) => d.spec_bytes(),
                            None => Seq::<u8>::empty(),
                        },
                    ),
                )
            },
        },
{
    let (id, name) = match (id, name) {
        (Some(i), Some(n)) => (i, n),
        _ => return Ok(None),
    };
    let id = match parse_u64_field(id.as_bytes()) {
        Some(v) => v,
        None => return Ok(None),
    };
    if !is_crate_name(name) {
        return Err(name.to_owned());
    }
    let description = match description {
        Some(d) => flatten_whitespace(d),
        None => flatten_whitespace(""),
    };
    proof {
        reveal_strlit("");
    }
    Ok(Some((name.to_owned(), id, description)))
}

/// The place in `seen` of the first table of the dump that was not found.
pub fn first_missing(seen: &[bool]) -> (r: Option<usize>)
    ensures
        match r {
            Some(i) => i < seen@.len() && !seen@[i as int] && forall|k: int| 0 <= k < i ==> seen@[k],
            None => forall|k: int| 0 <= k < seen@.len() ==> seen@[k],
        },
{
    let mut i: usize = 0;
    while i < seen.len()
        invariant
            i <= seen@.len(),
            forall|k: int| 0 <= k < i ==> seen@[k],
        decreases seen@.len() - i,
    {
        if !seen[i] {
            return Some(i);
        }
        i = i + 1;
    }
    None
}

/// The name of a crate row `(name, id, description)`, by bytes.
pub open spec fn row_name(row: (String, u64, String)) -> Seq<u8> {
    encode_utf8(row.0@)
}

/// The sort key of a crate row: its folded name.
pub open spec fn row_key(row: (String, u64, String)) -> Seq<u8> {
    fold(row_name(row))
}

/// Rows in order of their folded names (names that fold the same in any order).
pub open spec fn sorted_by_name(rows: Seq<(String, u64, String)>) -> bool {
    forall|i: int, j: int|
        0 <= i < j < rows.len() ==> !lex_lt(#[trigger] row_key(rows[j]), #[trigger] row_key(rows[i]))
}

/// Rows in decreasing order of their folded names.
spec fn sorted_by_name_descending(rows: Seq<(String, u64, String)>) -> bool {
    forall|i: int, j: int|
        0 <= i < j < rows.len() ==> !lex_lt(#[trigger] row_key(rows[i]), #[trigger] row_key(rows[j]))
}

proof fn lemma_not_below_transitive(a: Seq<u8>, b: Seq<u8>, c: Seq<u8>)
    requires
        !lex_lt(b, a),
        !lex_lt(c, b),
    ensures
        !lex_lt(c, a),
{
    if lex_lt(c, a) {
        lemma_lex_lt_total(a, b);
        if lex_lt(a, b) {
            lemma_lex_lt_transitive(c, a, b);
        } else if !(a =~= b) {
        } else {
            assert(a == b);
        }
    }
}

/// The folded name of `a` sorts strictly below the folded name of `b`.
fn row_name_less(a: &(String, u64, String), b: &(String, u64, String)) -> (r: bool)
    ensures
        r == lex_lt(row_key(*a), row_key(*b)),
{
    folded_less(a.0.as_str().as_bytes(), b.0.as_str().as_bytes())
}

/// Merges two runs sorted by folded name into one.
fn merge_by_name(a: Vec<(String, u64, String)>, b: Vec<(String, u64, String)>) -> (r: Vec<
    (String, u64, String),
>)
    requires
        sorted_by_name(a@),
        sorted_by_name(b@),
    ensures
        sorted_by_name(r@),
        r@.to_multiset() =~= a@.to_multiset().add(b@.to_multiset()),
{
    let ghost total = a@.to_multiset().add(b@.to_multiset());
    let mut a = a;
    let mut b = b;
    let mut rev: Vec<(String, u64, String)> = Vec::new();
    while a.len() > 0 || b.len() > 0
        invariant
            sorted_by_name(a@),
            sorted_by_name(b@),
            sorted_by_name_descending(rev@),
            forall|i: int, k: int|
                0 <= i < rev@.len() && 0 <= k < a@.len() ==> !lex_lt(
                    #[trigger] row_key(rev@[i]),
                    #[trigger] row_key(a@[k]),
                ),
            forall|i: int, k: int|
                0 <= i < rev@.len() && 0 <= k < b@.len() ==> !lex_lt(
                    #[trigger] row_key(rev@[i]),
                    #[trigger] row_key(b@[k]),
                ),
            rev@.to_multiset().add(a@.to_multiset()).add(b@.to_multiset()) =~= total,
        decreases a@.len() + b@.len(),
    {
        let take_a = if a.len() == 0 {
            false
        } else if b.len() == 0 {
            true
        } else {
            !row_name_less(&a[a.len() - 1], &b[b.len() - 1])
        };
        let ghost old_a = a@;
        let ghost old_b = b@;
        let ghost old_rev = rev@;
        let x = if take_a {
            a.pop().unwrap()
        } else {
            b.pop().unwrap()
        };
        proof {
            if take_a {
                assert(old_a =~= a@.push(x));
                assert forall|k: int| 0 <= k < a@.len() implies !lex_lt(
                    row_key(x),
                    #[trigger] row_key(a@[k]),
                ) by {
                    assert(a@[k] == old_a[k]);
                    assert(x == old_a[old_a.len() - 1]);
                }
                assert forall|k: int| 0 <= k < b@.len() implies !lex_lt(
                    row_key(x),
                    #[trigger] row_key(b@[k]),
                ) by {
                    lemma_lex_lt_irreflexive(row_key(b@[k]));
                    lemma_not_below_transitive(row_key(b@[k]), row_key(b@[b@.len() - 1]), row_key(x));
                }
            } else {
                assert(old_b =~= b@.push(x));
                assert forall|k: int| 0 <= k < b@.len() implies !lex_lt(
                    row_key(x),
                    #[trigger] row_key(b@[k]),
                ) by {
                    assert(b@[k] == old_b[k]);
                    assert(x == old_b[old_b.len() - 1]);
                }
                assert forall|k: int| 0 <= k < a@.len() implies !lex_lt(
                    row_key(x),
                    #[trigger] row_key(a@[k]),
                ) by {
                    let last = row_key(a@[a@.len() - 1]);
                    assert(lex_lt(last, row_key(x)));
                    crate::order::lemma_lex_lt_asymmetric(last, row_key(x));
                    lemma_lex_lt_irreflexive(last);
                    lemma_not_below_transitive(row_key(a@[k]), last, row_key(x));
                }
            }
        }
        rev.push(x);
        proof {
            assert(rev@ =~= old_rev.push(x));
            assert(sorted_by_name_descending(rev@)) by {
                assert forall|i: int, j: int| 0 <= i < j < rev@.len() implies !lex_lt(
                    #[trigger] row_key(rev@[i]),
                    #[trigger] row_key(rev@[j]),
                ) by {
                    if j == rev@.len() - 1 {
                        assert(rev@[i] == old_rev[i]);
                        if take_a {
                            assert(x == old_a[old_a.len() - 1]);
                        } else {
                            assert(x == old_b[old_b.len() - 1]);
                        }
                    } else {
                        assert(rev@[i] == old_rev[i]);
                        assert(rev@[j] == old_rev[j]);
                    }
                }
            }
            assert forall|i: int, k: int|
                0 <= i < rev@.len() && 0 <= k < a@.len() implies !lex_lt(
                #[trigger] row_key(rev@[i]),
                #[trigger] row_key(a@[k]),
            ) by {
                if i < old_rev.len() {
                    assert(rev@[i] == old_rev[i]);
                    if take_a {
                        assert(a@[k] == old_a[k]);
                    }
                }
            }
            assert forall|i: int, k: int|
                0 <= i < rev@.len() && 0 <= k < b@.len() implies !lex_lt(
                #[trigger] row_key(rev@[i]),
                #[trigger] row_key(b@[k]),
            ) by {
                if i < old_rev.len() {
                    assert(rev@[i] == old_rev[i]);
                    if !take_a {
                        assert(b@[k] == old_b[k]);
                    }
                }
            }
            if take_a {
                assert(a@.push(x).to_multiset() =~= a@.to_multiset().insert(x));
                assert(old_a.to_multiset() =~= a@.to_multiset().insert(x));
            } else {
                assert(b@.push(x).to_multiset() =~= b@.to_multiset().insert(x));
                assert(old_b.to_multiset() =~= b@.to_multiset().insert(x));
            }
            assert(old_rev.push(x).to_multiset() =~= old_rev.to_multiset().insert(x));
            assert(rev@.to_multiset() =~= old_rev.to_multiset().insert(x));
        }
    }
    let mut out: Vec<(String, u64, String)> = Vec::new();
    let ghost all = rev@;
    proof {
        assert(a@.to_multiset().len() == 0);
        assert(b@.to_multiset().len() == 0);
        assert(a@.to_multiset() =~= Multiset::empty());
        assert(b@.to_multiset() =~= Multiset::empty());
    }
    while rev.len() > 0
        invariant
            sorted_by_name_descending(rev@),
            sorted_by_name(out@),
            forall|i: int, k: int|
                0 <= i < rev@.len() && 0 <= k < out@.len() ==> !lex_lt(
                    #[trigger] row_key(rev@[i]),
                    #[trigger] row_key(out@[k]),
                ),
            rev@.to_multiset().add(out@.to_multiset()) =~= total,
        decreases rev@.len(),
    {
        let ghost old_rev = rev@;
        let ghost old_out = out@;
        let x = rev.pop().unwrap();
        proof {
            assert(old_rev =~= rev@.push(x));
            assert(rev@.push(x).to_multiset() =~= rev@.to_multiset().insert(x));
            assert(old_rev.to_multiset() =~= rev@.to_multiset().insert(x));
        }
        out.push(x);
        proof {
            assert(out@ =~= old_out.push(x));
            assert(old_out.push(x).to_multiset() =~= old_out.to_multiset().insert(x));
            assert(out@.to_multiset() =~= old_out.to_multiset().insert(x));
            assert forall|i: int, j: int| 0 <= i < j < out@.len() implies !lex_lt(
                #[trigger] row_key(out@[j]),
                #[trigger] row_key(out@[i]),
            ) by {
                if j == out@.len() - 1 {
                    assert(out@[i] == old_out[i]);
                    assert(x == old_rev[old_rev.len() - 1]);
                } else {
                    assert(out@[i] == old_out[i]);
                    assert(out@[j] == old_out[j]);
                }
            }
            assert forall|i: int, k: int|
                0 <= i < rev@.len() && 0 <= k < out@.len() implies !lex_lt(
                #[trigger] row_key(rev@[i]),
                #[trigger] row_key(out@[k]),
            ) by {
                assert(rev@[i] == old_rev[i]);
                if k < old_out.len() {
                    assert(out@[k] == old_out[k]);
                } else {
                    assert(out@[k] == old_rev[old_rev.len() - 1]);
                }
            }
        }
    }
    proof {
        assert(rev@.to_multiset().len() == 0);
        assert(rev@.to_multiset() =~= Multiset::empty());
    }
    out
}

/// The rows sorted by folded name, as a permutation of the given rows.
pub fn sort_by_name(rows: Vec<(String, u64, String)>) -> (r: Vec<(String, u64, String)>)
    ensures
        sorted_by_name(r@),
        r@.to_multiset() =~= rows@.to_multiset(),
    decreases rows@.len(),
{
    if rows.len() <= 1 {
        return rows;
    }
    let mid = rows.len() / 2;
    let mut left = rows;
    let ghost whole = left@;
    let right = left.split_off(mid);
    proof {
        assert(whole =~= left@ + right@);
        vstd::seq_lib::lemma_multiset_commutative(left@, right@);
    }
    let left = sort_by_name(left);
    let right = sort_by_name(right);
    merge_by_name(left, right)
}

/// The decimal digits of a rank, without leading zeros.
pub open spec fn decimal(n: u8) -> Seq<u8> {
    if n < 10 {
        seq![(0x30 + n) as u8]
    } else if n < 100 {
        seq![(0x30 + n / 10) as u8, (0x30 + n % 10) as u8]
    } else {
        seq![(0x30 + n / 100) as u8, (0x30 + (n / 10) % 10) as u8, (0x30 + n % 10) as u8]
    }
}

/// The default version of crate `id`, if the dump resolves one: its default
/// version id, and that version's number.
pub open spec fn version_of(id: u64, defaults: Map<u64, u64>, versions: Map<u64, String>) -> Option<
    Seq<u8>,
> {
    if defaults.contains_key(id) && versions.contains_key(defaults[id]) {
        Some(encode_utf8(versions[defaults[id]]@))
    } else {
        None
    }
}

/// All-time downloads of crate `id`, 0 when the dump has none.
pub open spec fn downloads_of(id: u64, downloads: Map<u64, u64>) -> u64 {
    if downloads.contains_key(id) {
        downloads[id]
    } else {
        0
    }
}

/// A line of the names artifact, without its `\n`.
pub open spec fn names_line(name: Seq<u8>, version: Seq<u8>, rank: u8) -> Seq<u8> {
    name + seq![TAB] + version + seq![TAB] + decimal(rank)
}

/// A line of the descriptions artifact, without its `\n`.
pub open spec fn description_line(name: Seq<u8>, description: Seq<u8>) -> Seq<u8> {
    name + seq![TAB] + description
}

/// The names artifact for `rows` in the given order: one line per row whose
/// default version resolves, rows without one skipped.
pub open spec fn rendered_names(
    rows: Seq<(String, u64, String)>,
    downloads: Map<u64, u64>,
    defaults: Map<u64, u64>,
    versions: Map<u64, String>,
) -> Seq<u8>
    decreases rows.len(),
{
    if rows.len() == 0 {
        seq![]
    } else {
        let row = rows.last();
        let before = rendered_names(rows.drop_last(), downloads, defaults, versions);
        match version_of(row.1, defaults, versions) {
            Some(v) => before + names_line(
                row_name(row),
                v,
                rank_of(downloads_of(row.1, downloads)),
            ) + seq![NEWLINE],
            None => before,
        }
    }
}

/// The descriptions artifact for `rows` in the given order: one line per
/// row whose default version resolves and whose description is not empty.
pub open spec fn rendered_descriptions(
    rows: Seq<(String, u64, String)>,
    defaults: Map<u64, u64>,
    versions: Map<u64, String>,
) -> Seq<u8>
    decreases rows.len(),
{
    if rows.len() == 0 {
        seq![]
    } else {
        let row = rows.last();
        let before = rendered_descriptions(rows.drop_last(), defaults, versions);
        if version_of(row.1, defaults, versions) is Some && encode_utf8(row.2@).len() > 0 {
            before + description_line(row_name(row), encode_utf8(row.2@)) + seq![NEWLINE]
        } else {
            before
        }
    }
}

/// How many of `rows` have a default version that resolves.
pub open spec fn rendered_count(
    rows: Seq<(String, u64, String)>,
    defaults: Map<u64, u64>,
    versions: Map<u64, String>,
) -> nat
    decreases rows.len(),
{
    if rows.len() == 0 {
        0
    } else {
        rendered_count(rows.drop_last(), defaults, versions) + if version_of(
            rows.last().1,
            defaults,
            versions,
        ) is Some {
            1nat
        } else {
            0nat
        }
    }
}

/// The uncompressed artifacts plus build statistics.
pub struct BuildOutput {
    /// the names artifact, uncompressed
    pub names_tsv: String,
    /// the descriptions artifact, uncompressed
    pub descriptions_tsv: String,
    /// crates included in the names artifact
    pub crate_count: usize,
    /// crates skipped because no default version could be resolved
    pub skipped_no_version: usize,
}

impl BuildOutput {
    /// The names artifact, compressed for publication.
    pub fn names_zst(&self) -> (r: Result<Vec<u8>, IoError>)
        ensures
            r is Ok,
            r matches Ok(c) ==> c@ == zstd_encoded(encode_utf8(self.names_tsv@), ZSTD_LEVEL)
                && crate::decode::zstd_decoded(c@) == Some(encode_utf8(self.names_tsv@)),
    {
        zstd_encode_all(self.names_tsv.as_str().as_bytes(), ZSTD_LEVEL)
    }

    /// The descriptions artifact, compressed for publication.
    pub fn descriptions_zst(&self) -> (r: Result<Vec<u8>, IoError>)
        ensures
            r is Ok,
            r matches Ok(c) ==> c@ == zstd_encoded(encode_utf8(self.descriptions_tsv@), ZSTD_LEVEL)
                && crate::decode::zstd_decoded(c@) == Some(encode_utf8(self.descriptions_tsv@)),
    {
        zstd_encode_all(self.descriptions_tsv.as_str().as_bytes(), ZSTD_LEVEL)
    }
}

/// ASCII bytes are valid UTF-8 on their own.
pub(crate) proof fn lemma_ascii_valid_utf8(s: Seq<u8>)
    requires
        forall|k: int| 0 <= k < s.len() ==> s[k] < 0x80,
    ensures
        valid_utf8(s),
    decreases s.len(),
{
    if s.len() > 0 {
        let b = s[0];
        assert((b & 0x7F) as u32 <= 0x7f) by (bit_vector);
        assert(vstd::utf8::pop_first_scalar(s) =~= s.drop_first());
        lemma_ascii_valid_utf8(s.drop_first());
    }
}

/// Appends `bytes` to `out`.
pub(crate) fn push_all(out: &mut Vec<u8>, bytes: &[u8])
    ensures
        final(out)@ == old(out)@ + bytes@,
{
    let mut i: usize = 0;
    while i < bytes.len()
        invariant
            i <= bytes@.len(),
            out@ == old(out)@ + bytes@.take(i as int),
        decreases bytes@.len() - i,
    {
        out.push(bytes[i]);
        i = i + 1;
        assert(bytes@.take(i as int) =~= bytes@.take(i - 1).push(bytes@[i - 1]));
    }
    assert(bytes@.take(i as int) =~= bytes@);
}

/// Appends the decimal digits of `n`.
fn push_decimal(out: &mut Vec<u8>, n: u8)
    ensures
        final(out)@ == old(out)@ + decimal(n),
{
    if n >= 100 {
        out.push(0x30 + n / 100);
        out.push(0x30 + (n / 10) % 10);
        out.push(0x30 + n % 10);
    } else if n >= 10 {
        out.push(0x30 + n / 10);
        out.push(0x30 + n % 10);
    } else {
        out.push(0x30 + n);
    }
    assert(out@ =~= old(out)@ + decimal(n));
}

/// Appends a names line and its `\n`.
fn push_names_line(out: &mut Vec<u8>, name: &str, version: &str, rank: u8)
    requires
        valid_utf8(old(out)@),
    ensures
        final(out)@ == old(out)@ + names_line(name.spec_bytes(), version.spec_bytes(), rank) + seq![
            NEWLINE,
        ],
        valid_utf8(final(out)@),
{
    broadcast use vstd::utf8::group_utf8_lib;

    push_all(out, name.as_bytes());
    out.push(TAB);
    push_all(out, version.as_bytes());
    out.push(TAB);
    push_decimal(out, rank);
    out.push(NEWLINE);
    proof {
        let tab: Seq<u8> = seq![TAB];
        let digits = decimal(rank) + seq![NEWLINE];
        lemma_ascii_valid_utf8(tab);
        lemma_ascii_valid_utf8(digits);
        let o = old(out)@;
        let n = name.spec_bytes();
        let v = version.spec_bytes();
        assert(valid_utf8(n));
        assert(valid_utf8(v));
        assert(valid_utf8(o + n));
        assert(valid_utf8(o + n + tab));
        assert(valid_utf8(o + n + tab + v));
        assert(valid_utf8(o + n + tab + v + tab));
        assert(valid_utf8(o + n + tab + v + tab + digits));
        assert(final(out)@ =~= old(out)@ + name.spec_bytes() + tab + version.spec_bytes() + tab + digits);
        assert(final(out)@ =~= old(out)@ + names_line(name.spec_bytes(), version.spec_bytes(), rank)
            + seq![NEWLINE]);
    }
}

/// Appends a descriptions line and its `\n`.
fn push_description_line(out: &mut Vec<u8>, name: &str, description: &str)
    requires
        valid_utf8(old(out)@),
    ensures
        final(out)@ == old(out)@ + description_line(name.spec_bytes(), description.spec_bytes())
            + seq![NEWLINE],
        valid_utf8(final(out)@),
{
    broadcast use vstd::utf8::group_utf8_lib;

    push_all(out, name.as_bytes());
    out.push(TAB);
    push_all(out, description.as_bytes());
    out.push(NEWLINE);
    proof {
        let tab: Seq<u8> = seq![TAB];
        let nl: Seq<u8> = seq![NEWLINE];
        lemma_ascii_valid_utf8(tab);
        lemma_ascii_valid_utf8(nl);
        let o = old(out)@;
        let n = name.spec_bytes();
        let t = description.spec_bytes();
        assert(valid_utf8(n));
        assert(valid_utf8(t));
        assert(valid_utf8(o + n));
        assert(valid_utf8(o + n + tab));
        assert(valid_utf8(o + n + tab + t));
        assert(valid_utf8(o + n + tab + t + nl));
        assert(final(out)@ =~= old(out)@ + name.spec_bytes() + tab + description.spec_bytes() + nl);
        assert(final(out)@ =~= old(out)@ + description_line(name.spec_bytes(), description.spec_bytes())
            + seq![NEWLINE]);
    }
}

/// One more row: the artifacts grow by that row's lines.
proof fn lemma_render_step(
    rows: Seq<(String, u64, String)>,
    i: int,
    d: Map<u64, u64>,
    dv: Map<u64, u64>,
    vn: Map<u64, String>,
)
    requires
        0 <= i < rows.len(),
    ensures
        ({
            let row = rows[i];
            let p = rows.take(i + 1);
            let q = rows.take(i);
            &&& rendered_names(p, d, dv, vn) == match version_of(row.1, dv, vn) {
                Some(v) => rendered_names(q, d, dv, vn) + names_line(
                    row_name(row),
                    v,
                    rank_of(downloads_of(row.1, d)),
                ) + seq![NEWLINE],
                None => rendered_names(q, d, dv, vn),
            }
            &&& rendered_descriptions(p, dv, vn) == if version_of(row.1, dv, vn) is Some
                && encode_utf8(row.2@).len() > 0 {
                rendered_descriptions(q, dv, vn) + description_line(
                    row_name(row),
                    encode_utf8(row.2@),
                ) + seq![NEWLINE]
            } else {
                rendered_descriptions(q, dv, vn)
            }
            &&& rendered_count(p, dv, vn) == rendered_count(q, dv, vn) + if version_of(
                row.1,
                dv,
                vn,
            ) is Some {
                1nat
            } else {
                0nat
            }
        }),
{
    assert(rows.take(i + 1).drop_last() =~= rows.take(i));
    assert(rows.take(i + 1).last() == rows[i]);
}

/// Writes the artifacts for crate rows already in their final order,
/// looking up each crate's default version number and downloads.
pub fn render(
    rows: &Vec<(String, u64, String)>,
    downloads: &HashMap<u64, u64>,
    version_num: &HashMap<u64, String>,
    default_version: &HashMap<u64, u64>,
) -> (r: BuildOutput)
    ensures
        encode_utf8(r.names_tsv@) == rendered_names(
            rows@,
            downloads@,
            default_version@,
            version_num@,
        ),
        encode_utf8(r.descriptions_tsv@) == rendered_descriptions(
            rows@,
            default_version@,
            version_num@,
        ),
        r.crate_count == rendered_count(rows@, default_version@, version_num@),
        r.skipped_no_version == rows@.len() - rendered_count(rows@, default_version@, version_num@),
{
    let ghost d = downloads@;
    let ghost dv = default_version@;
    let ghost vn = version_num@;
    broadcast use vstd::std_specs::hash::group_hash_axioms;

    let mut names: Vec<u8> = Vec::new();
    let mut descriptions: Vec<u8> = Vec::new();
    let mut crate_count: usize = 0;
    let mut skipped: usize = 0;
    let mut i: usize = 0;
    proof {
        assert(rows@.take(0) =~= Seq::<(String, u64, String)>::empty());
        lemma_ascii_valid_utf8(Seq::<u8>::empty());
    }
    while i < rows.len()
        invariant
            d == downloads@,
            dv == default_version@,
            vn == version_num@,
            i <= rows@.len(),
            names@ == rendered_names(rows@.take(i as int), d, dv, vn),
            descriptions@ == rendered_descriptions(rows@.take(i as int), dv, vn),
            crate_count == rendered_count(rows@.take(i as int), dv, vn),
            crate_count + skipped == i,
            valid_utf8(names@),
            valid_utf8(descriptions@),
        decreases rows@.len() - i,
    {
        let row = &rows[i];
        proof {
            lemma_render_step(rows@, i as int, d, dv, vn);
        }
        let version = match default_version.get(&row.1) {
            Some(vid) => version_num.get(vid),
            None => None,
        };
        match version {
            None => {
                assert(version_of(row.1, dv, vn) is None);
                skipped = skipped + 1;
            },
            Some(v) => {
                assert(version_of(row.1, dv, vn) == Some(encode_utf8(v@)));
                let count = match downloads.get(&row.1) {
                    Some(n) => *n,
                    None => 0,
                };
                assert(count == downloads_of(row.1, d));
                let rank = rank_from_downloads(count);
                push_names_line(&mut names, row.0.as_str(), v.as_str(), rank);
                let description = row.2.as_str();
                if description.as_bytes().len() > 0 {
                    push_description_line(&mut descriptions, row.0.as_str(), description);
                }
                crate_count = crate_count + 1;
            },
        }
        i = i + 1;
    }
    proof {
        assert(rows@.take(i as int) =~= rows@);
    }
    let names_tsv = match string_from_utf8(names) {
        Ok(s) => s,
        Err(_) => {
            assert(false);
            String::new()
        },
    };
    let descriptions_tsv = match string_from_utf8(descriptions) {
        Ok(s) => s,
        Err(_) => {
            assert(false);
            String::new()
        },
    };
    BuildOutput { names_tsv, descriptions_tsv, crate_count, skipped_no_version: skipped }
}

/// Writes the artifacts for the crate rows of a dump: rows sorted by folded
/// name, each with its default version number and download rank. When the
/// names and versions fit their fields and no two names fold the same, the
/// readers accept what it writes (up to the 4 GiB they support).
pub fn assemble(
    crates: Vec<(String, u64, String)>,
    downloads: &HashMap<u64, u64>,
    version_num: &HashMap<u64, String>,
    default_version: &HashMap<u64, u64>,
) -> (r: BuildOutput)
    ensures
        exists|sorted: Seq<(String, u64, String)>|
            {
                &&& sorted_by_name(sorted)
                &&& #[trigger] sorted.to_multiset() =~= crates@.to_multiset()
                &&& encode_utf8(r.names_tsv@) == rendered_names(
                    sorted,
                    downloads@,
                    default_version@,
                    version_num@,
                )
                &&& encode_utf8(r.descriptions_tsv@) == rendered_descriptions(
                    sorted,
                    default_version@,
                    version_num@,
                )
                &&& r.crate_count == rendered_count(sorted, default_version@, version_num@)
                &&& r.skipped_no_version == sorted.len() - rendered_count(
                    sorted,
                    default_version@,
                    version_num@,
                )
            },
        rows_fit_fields(crates@, default_version@, version_num@) && folded_names_distinct(crates@)
            && encode_utf8(r.names_tsv@).len() <= u32::MAX ==> text_rejection(
            encode_utf8(r.names_tsv@),
            true,
        ) is None,
        rows_fit_fields(crates@, default_version@, version_num@) && descriptions_fit_lines(crates@)
            && folded_names_distinct(crates@) && encode_utf8(r.descriptions_tsv@).len() <= u32::MAX
            ==> text_rejection(encode_utf8(r.descriptions_tsv@), false) is None,
{
    let ghost input = crates@;
    let sorted = sort_by_name(crates);
    let r = render(&sorted, downloads, version_num, default_version);
    assert(sorted@.to_multiset() =~= input.to_multiset());
    proof {
        let d = downloads@;
        let dv = default_version@;
        let vn = version_num@;
        lemma_fit_permuted(input, sorted@, dv, vn);
        if folded_names_distinct(input) {
            lemma_sorted_distinct(input, sorted@);
            lemma_rendered_entries_sorted(sorted@, d, dv, vn);
            lemma_rendered_pairs_sorted(sorted@, dv, vn);
            if rows_fit_fields(input, dv, vn) {
                if encode_utf8(r.names_tsv@).len() <= u32::MAX {
                    lemma_reader_accepts_rendered(sorted@, d, dv, vn);
                }
                if descriptions_fit_lines(input) && encode_utf8(r.descriptions_tsv@).len()
                    <= u32::MAX {
                    lemma_reader_accepts_rendered_descriptions(sorted@, dv, vn);
                }
            }
        }
    }
    r
}

/// Text that can stand in one field of a line: no tab and no line break.
pub open spec fn field_text(s: Seq<u8>) -> bool {
    forall|k: int| 0 <= k < s.len() ==> #[trigger] s[k] != TAB && s[k] != NEWLINE
}

/// The entries the names artifact holds for `rows`, in order.
pub open spec fn rendered_entries(
    rows: Seq<(String, u64, String)>,
    downloads: Map<u64, u64>,
    defaults: Map<u64, u64>,
    versions: Map<u64, String>,
) -> Seq<EntryView>
    decreases rows.len(),
{
    if rows.len() == 0 {
        seq![]
    } else {
        let row = rows.last();
        let before = rendered_entries(rows.drop_last(), downloads, defaults, versions);
        match version_of(row.1, defaults, versions) {
            Some(v) => before.push(
                EntryView {
                    name: row_name(row),
                    version: v,
                    rank: rank_of(downloads_of(row.1, downloads)),
                },
            ),
            None => before,
        }
    }
}

/// The lines of the names artifact, as its entries write them.
pub open spec fn entry_lines(entries: Seq<EntryView>) -> Seq<Seq<u8>> {
    entries.map_values(|e: EntryView| names_line(e.name, e.version, e.rank))
}

/// Crate names and default versions fit their fields.
pub open spec fn rows_fit_fields(
    rows: Seq<(String, u64, String)>,
    defaults: Map<u64, u64>,
    versions: Map<u64, String>,
) -> bool {
    forall|i: int|
        0 <= i < rows.len() ==> field_text(row_name(#[trigger] rows[i])) && (version_of(
            rows[i].1,
            defaults,
            versions,
        ) matches Some(v) ==> field_text(v))
}

proof fn lemma_decimal_reads_back(n: u8)
    ensures
        parse_rank(decimal(n)) == Some(n),
        field_text(decimal(n)),
        unsigned_digits(decimal(n)) == decimal(n),
{
    let d = decimal(n);
    assert(all_digits(d));
    let empty = Seq::<u8>::empty();
    assert(digits_value(empty) == 0);
    let x0 = (0x30 + n % 10) as u8;
    if n < 10 {
        let x = (0x30 + n) as u8;
        assert(d =~= empty.push(x));
        assert(empty.push(x).drop_last() =~= empty);
        assert(digits_value(empty.push(x)) == n);
    } else if n < 100 {
        let x1 = (0x30 + n / 10) as u8;
        let one = empty.push(x1);
        assert(one.drop_last() =~= empty);
        assert(digits_value(one) == n / 10);
        assert(d =~= one.push(x0));
        assert(one.push(x0).drop_last() =~= one);
        assert(digits_value(one.push(x0)) == (n / 10) * 10 + n % 10);
    } else {
        let x2 = (0x30 + n / 100) as u8;
        let x1 = (0x30 + (n / 10) % 10) as u8;
        let one = empty.push(x2);
        let two = one.push(x1);
        assert(one.drop_last() =~= empty);
        assert(digits_value(one) == n / 100);
        assert(two.drop_last() =~= one);
        assert(digits_value(two) == (n / 100) * 10 + (n / 10) % 10);
        assert(d =~= two.push(x0));
        assert(two.push(x0).drop_last() =~= two);
        assert(digits_value(two.push(x0)) == ((n / 100) * 10 + (n / 10) % 10) * 10 + n % 10);
    }
}

/// The entries written for rows that fit their fields fit them too.
proof fn lemma_rendered_entries_fit(
    rows: Seq<(String, u64, String)>,
    d: Map<u64, u64>,
    dv: Map<u64, u64>,
    vn: Map<u64, String>,
)
    requires
        rows_fit_fields(rows, dv, vn),
    ensures
        forall|k: int|
            0 <= k < rendered_entries(rows, d, dv, vn).len() ==> field_text(
                (#[trigger] rendered_entries(rows, d, dv, vn)[k]).name,
            ) && field_text(rendered_entries(rows, d, dv, vn)[k].version),
    decreases rows.len(),
{
    if rows.len() > 0 {
        let init = rows.drop_last();
        assert(rows_fit_fields(init, dv, vn)) by {
            assert forall|i: int| 0 <= i < init.len() implies field_text(row_name(#[trigger] init[i]))
                && (version_of(init[i].1, dv, vn) matches Some(v) ==> field_text(v)) by {
                assert(init[i] == rows[i]);
            }
        }
        lemma_rendered_entries_fit(init, d, dv, vn);
        assert(rows.last() == rows[rows.len() - 1]);
        let es = rendered_entries(rows, d, dv, vn);
        let before = rendered_entries(init, d, dv, vn);
        assert forall|k: int| 0 <= k < es.len() implies field_text((#[trigger] es[k]).name)
            && field_text(es[k].version) by {
            if k < before.len() {
                assert(es[k] == before[k]);
            }
        }
    }
}

/// A names line reads back as the entry that wrote it.
pub proof fn lemma_names_line_reads_back(name: Seq<u8>, version: Seq<u8>, rank: u8)
    requires
        field_text(name),
        field_text(version),
    ensures
        parse_entry(names_line(name, version, rank)) == Some(
            EntryView { name: name, version: version, rank: rank },
        ),
        first_field(names_line(name, version, rank)) == name,
        forall|k: int|
            0 <= k < names_line(name, version, rank).len() ==> #[trigger] names_line(
                name,
                version,
                rank,
            )[k] != NEWLINE,
{
    let l = names_line(name, version, rank);
    let t1 = name.len() as int;
    let t2 = t1 + 1 + version.len();
    lemma_decimal_reads_back(rank);
    let d = decimal(rank);
    assert forall|k: int| t2 < k < l.len() implies l[k] != TAB by {
        assert(l[k] == d[k - t2 - 1]);
    }
    assert forall|k: int| t1 < k < t2 implies l[k] != TAB by {
        assert(l[k] == version[k - t1 - 1]);
    }
    assert forall|k: int| 0 <= k < t1 implies l[k] != TAB by {
        assert(l[k] == name[k]);
    }
    lemma_split_fields_three(l, t1, t2);
    assert(l.take(t1) =~= name);
    assert(l.subrange(t1 + 1, t2) =~= version);
    assert(l.skip(t2 + 1) =~= d);
    lemma_index_of(l, TAB, t1);
    assert forall|k: int| 0 <= k < l.len() implies #[trigger] l[k] != NEWLINE by {
        if k < t1 {
            assert(l[k] == name[k]);
        } else if t1 < k < t2 {
            assert(l[k] == version[k - t1 - 1]);
        } else if k > t2 {
            assert(l[k] == d[k - t2 - 1]);
        }
    }
}

/// Appending a line and its `\n` to complete lines appends one line.
pub proof fn lemma_split_lines_append(a: Seq<u8>, l: Seq<u8>)
    requires
        a.len() == 0 || a.last() == NEWLINE,
        forall|k: int| 0 <= k < l.len() ==> #[trigger] l[k] != NEWLINE,
    ensures
        split_lines(a + l + seq![NEWLINE]) =~= split_lines(a).push(l),
    decreases a.len(),
{
    let t = a + l + seq![NEWLINE];
    if a.len() == 0 {
        assert(t =~= l + seq![NEWLINE]);
        lemma_index_of(t, NEWLINE, l.len() as int);
        assert(t.take(l.len() as int) =~= l);
        assert(t.skip(l.len() as int + 1) =~= Seq::<u8>::empty());
        assert(split_lines(t) =~= seq![l] + split_lines(Seq::<u8>::empty()));
        assert(split_lines(a) =~= Seq::<Seq<u8>>::empty());
    } else {
        lemma_index_of_bound(a, NEWLINE);
        let i = index_of(a, NEWLINE) as int;
        assert(i < a.len());
        assert forall|k: int| 0 <= k < i implies t[k] != NEWLINE by {
            assert(t[k] == a[k]);
        }
        lemma_index_of(t, NEWLINE, i);
        let rest = a.skip(i + 1);
        assert(t.take(i) =~= a.take(i));
        assert(t.skip(i + 1) =~= rest + l + seq![NEWLINE]);
        if rest.len() > 0 {
            assert(rest.last() == a.last());
        }
        lemma_split_lines_append(rest, l);
        assert(split_lines(t) =~= seq![a.take(i)] + split_lines(rest + l + seq![NEWLINE]));
        assert(split_lines(a) =~= seq![a.take(i)] + split_lines(rest));
    }
}

proof fn lemma_rendered_names_complete(
    rows: Seq<(String, u64, String)>,
    d: Map<u64, u64>,
    dv: Map<u64, u64>,
    vn: Map<u64, String>,
)
    ensures
        rendered_names(rows, d, dv, vn).len() == 0 || rendered_names(rows, d, dv, vn).last()
            == NEWLINE,
    decreases rows.len(),
{
    if rows.len() > 0 {
        lemma_rendered_names_complete(rows.drop_last(), d, dv, vn);
    }
}

/// What the builder writes reads back line by line: the names artifact for
/// `rows` has one line per row with a default version, and each line reads
/// as that row's entry (name, default version, download rank).
pub proof fn lemma_rendered_names_read_back(
    rows: Seq<(String, u64, String)>,
    d: Map<u64, u64>,
    dv: Map<u64, u64>,
    vn: Map<u64, String>,
)
    requires
        rows_fit_fields(rows, dv, vn),
    ensures
        split_lines(rendered_names(rows, d, dv, vn)) =~= entry_lines(
            rendered_entries(rows, d, dv, vn),
        ),
        forall|k: int|
            0 <= k < rendered_entries(rows, d, dv, vn).len() ==> parse_entry(
                #[trigger] entry_lines(rendered_entries(rows, d, dv, vn))[k],
            ) == Some(rendered_entries(rows, d, dv, vn)[k]),
    decreases rows.len(),
{
    let es = rendered_entries(rows, d, dv, vn);
    if rows.len() > 0 {
        let init = rows.drop_last();
        assert(rows_fit_fields(init, dv, vn)) by {
            assert forall|i: int| 0 <= i < init.len() implies field_text(row_name(#[trigger] init[i]))
                && (version_of(init[i].1, dv, vn) matches Some(v) ==> field_text(v)) by {
                assert(init[i] == rows[i]);
            }
        }
        lemma_rendered_names_read_back(init, d, dv, vn);
        lemma_rendered_names_complete(init, d, dv, vn);
        let row = rows.last();
        assert(row == rows[rows.len() - 1]);
        let before = rendered_entries(init, d, dv, vn);
        match version_of(row.1, dv, vn) {
            Some(v) => {
                let rank = rank_of(downloads_of(row.1, d));
                lemma_names_line_reads_back(row_name(row), v, rank);
                lemma_split_lines_append(
                    rendered_names(init, d, dv, vn),
                    names_line(row_name(row), v, rank),
                );
                assert(entry_lines(es) =~= entry_lines(before).push(
                    names_line(row_name(row), v, rank),
                ));
                assert forall|k: int| 0 <= k < es.len() implies parse_entry(
                    #[trigger] entry_lines(es)[k],
                ) == Some(es[k]) by {
                    if k < before.len() {
                        assert(entry_lines(es)[k] == entry_lines(before)[k]);
                        assert(es[k] == before[k]);
                    }
                }
            },
            None => {},
        }
    }
}

/// The reader accepts what the builder writes when the written names are
/// in strictly increasing folded order and the artifact fits 32-bit offsets.
pub proof fn lemma_reader_accepts_rendered(
    rows: Seq<(String, u64, String)>,
    d: Map<u64, u64>,
    dv: Map<u64, u64>,
    vn: Map<u64, String>,
)
    requires
        rows_fit_fields(rows, dv, vn),
        strictly_sorted(rendered_entries(rows, d, dv, vn).map_values(|e: EntryView| fold(e.name))),
        rendered_names(rows, d, dv, vn).len() <= u32::MAX,
    ensures
        text_rejection(rendered_names(rows, d, dv, vn), true) is None,
        split_lines(rendered_names(rows, d, dv, vn)).map_values(|l: Seq<u8>| parse_entry(l))
            =~= rendered_entries(rows, d, dv, vn).map_values(|e: EntryView| Some(e)),
{
    lemma_rendered_names_read_back(rows, d, dv, vn);
    lemma_rendered_entries_fit(rows, d, dv, vn);
    let es = rendered_entries(rows, d, dv, vn);
    let ls = split_lines(rendered_names(rows, d, dv, vn));
    let keys = keys_of(ls);
    let folded = es.map_values(|e: EntryView| fold(e.name));
    assert forall|k: int| 0 <= k < ls.len() implies #[trigger] keys[k] == folded[k] by {
        lemma_names_line_reads_back(es[k].name, es[k].version, es[k].rank);
        assert(ls[k] == entry_lines(es)[k]);
        assert(parse_entry(ls[k]) == Some(es[k]));
        assert(es[k].name =~= split_fields(ls[k])[0]);
    }
    assert forall|l: int| !first_unsorted(keys, l) by {
        if 1 <= l < keys.len() {
            assert(keys[l - 1] == folded[l - 1]);
            assert(keys[l] == folded[l]);
        }
    }
    assert forall|l: int| !first_malformed(ls, l) by {
        if 0 <= l < ls.len() {
            assert(parse_entry(entry_lines(es)[l]) == Some(es[l]));
        }
    }
}

/// Text that can stand in the last field of a line: no line break.
pub open spec fn line_text(s: Seq<u8>) -> bool {
    forall|k: int| 0 <= k < s.len() ==> #[trigger] s[k] != NEWLINE
}

/// Descriptions have no line break (as flattened descriptions have none).
pub open spec fn descriptions_fit_lines(rows: Seq<(String, u64, String)>) -> bool {
    forall|i: int| 0 <= i < rows.len() ==> line_text(encode_utf8((#[trigger] rows[i]).2@))
}

/// The `(name, description)` pairs the descriptions artifact holds for
/// `rows`, in order.
pub open spec fn rendered_description_pairs(
    rows: Seq<(String, u64, String)>,
    defaults: Map<u64, u64>,
    versions: Map<u64, String>,
) -> Seq<(Seq<u8>, Seq<u8>)>
    decreases rows.len(),
{
    if rows.len() == 0 {
        seq![]
    } else {
        let row = rows.last();
        let before = rendered_description_pairs(rows.drop_last(), defaults, versions);
        if version_of(row.1, defaults, versions) is Some && encode_utf8(row.2@).len() > 0 {
            before.push((row_name(row), encode_utf8(row.2@)))
        } else {
            before
        }
    }
}

/// The lines of the descriptions artifact, as its pairs write them.
pub open spec fn description_lines(pairs: Seq<(Seq<u8>, Seq<u8>)>) -> Seq<Seq<u8>> {
    pairs.map_values(|p: (Seq<u8>, Seq<u8>)| description_line(p.0, p.1))
}

/// A descriptions line reads back as the pair that wrote it.
pub proof fn lemma_description_line_reads_back(name: Seq<u8>, description: Seq<u8>)
    requires
        field_text(name),
        line_text(description),
    ensures
        split_once_tab(description_line(name, description)) == Some((name, description)),
        first_field(description_line(name, description)) == name,
        line_text(description_line(name, description)),
{
    let l = description_line(name, description);
    let t = name.len() as int;
    assert forall|k: int| 0 <= k < t implies l[k] != TAB by {
        assert(l[k] == name[k]);
    }
    lemma_index_of(l, TAB, t);
    assert(l.take(t) =~= name);
    assert(l.skip(t + 1) =~= description);
    assert forall|k: int| 0 <= k < l.len() implies #[trigger] l[k] != NEWLINE by {
        if k < t {
            assert(l[k] == name[k]);
        } else if k > t {
            assert(l[k] == description[k - t - 1]);
        }
    }
}

proof fn lemma_rendered_descriptions_complete(
    rows: Seq<(String, u64, String)>,
    dv: Map<u64, u64>,
    vn: Map<u64, String>,
)
    ensures
        rendered_descriptions(rows, dv, vn).len() == 0 || rendered_descriptions(rows, dv, vn).last()
            == NEWLINE,
    decreases rows.len(),
{
    if rows.len() > 0 {
        lemma_rendered_descriptions_complete(rows.drop_last(), dv, vn);
    }
}

/// What the builder writes for descriptions reads back: the descriptions
/// artifact for `rows` has one line per row with a default version and a
/// non-empty description, and the reader's `(name, description)` pairs are
/// exactly those rows' names and descriptions.
pub proof fn lemma_rendered_descriptions_read_back(
    rows: Seq<(String, u64, String)>,
    dv: Map<u64, u64>,
    vn: Map<u64, String>,
)
    requires
        rows_fit_fields(rows, dv, vn),
        descriptions_fit_lines(rows),
    ensures
        split_lines(rendered_descriptions(rows, dv, vn)) =~= description_lines(
            rendered_description_pairs(rows, dv, vn),
        ),
        description_pairs(split_lines(rendered_descriptions(rows, dv, vn)))
            =~= rendered_description_pairs(rows, dv, vn),
        forall|k: int|
            0 <= k < rendered_description_pairs(rows, dv, vn).len() ==> first_field(
                #[trigger] description_lines(rendered_description_pairs(rows, dv, vn))[k],
            ) == rendered_description_pairs(rows, dv, vn)[k].0,
    decreases rows.len(),
{
    let ps = rendered_description_pairs(rows, dv, vn);
    if rows.len() > 0 {
        let init = rows.drop_last();
        assert(rows_fit_fields(init, dv, vn)) by {
            assert forall|i: int| 0 <= i < init.len() implies field_text(row_name(#[trigger] init[i]))
                && (version_of(init[i].1, dv, vn) matches Some(v) ==> field_text(v)) by {
                assert(init[i] == rows[i]);
            }
        }
        assert(descriptions_fit_lines(init)) by {
            assert forall|i: int| 0 <= i < init.len() implies line_text(
                encode_utf8((#[trigger] init[i]).2@),
            ) by {
                assert(init[i] == rows[i]);
            }
        }
        lemma_rendered_descriptions_read_back(init, dv, vn);
        lemma_rendered_descriptions_complete(init, dv, vn);
        let row = rows.last();
        assert(row == rows[rows.len() - 1]);
        let before = rendered_description_pairs(init, dv, vn);
        let lines_before = split_lines(rendered_descriptions(init, dv, vn));
        if version_of(row.1, dv, vn) is Some && encode_utf8(row.2@).len() > 0 {
            let name = row_name(row);
            let description = encode_utf8(row.2@);
            lemma_description_line_reads_back(name, description);
            lemma_split_lines_append(
                rendered_descriptions(init, dv, vn),
                description_line(name, description),
            );
            let lines = lines_before.push(description_line(name, description));
            assert(description_lines(ps) =~= description_lines(before).push(
                description_line(name, description),
            ));
            assert(lines.drop_last() =~= lines_before);
            assert(description_pairs(lines) =~= description_pairs(lines_before).push(
                (name, description),
            ));
            assert forall|k: int| 0 <= k < ps.len() implies first_field(
                #[trigger] description_lines(ps)[k],
            ) == ps[k].0 by {
                if k < before.len() {
                    assert(description_lines(ps)[k] == description_lines(before)[k]);
                    assert(ps[k] == before[k]);
                }
            }
        }
    }
}

/// The reader accepts the descriptions the builder writes when the
/// described names are in strictly increasing folded order and the
/// artifact fits 32-bit offsets.
pub proof fn lemma_reader_accepts_rendered_descriptions(
    rows: Seq<(String, u64, String)>,
    dv: Map<u64, u64>,
    vn: Map<u64, String>,
)
    requires
        rows_fit_fields(rows, dv, vn),
        descriptions_fit_lines(rows),
        strictly_sorted(
            rendered_description_pairs(rows, dv, vn).map_values(
                |p: (Seq<u8>, Seq<u8>)| fold(p.0),
            ),
        ),
        rendered_descriptions(rows, dv, vn).len() <= u32::MAX,
    ensures
        text_rejection(rendered_descriptions(rows, dv, vn), false) is None,
{
    lemma_rendered_descriptions_read_back(rows, dv, vn);
    let ps = rendered_description_pairs(rows, dv, vn);
    let ls = split_lines(rendered_descriptions(rows, dv, vn));
    let keys = keys_of(ls);
    let folded = ps.map_values(|p: (Seq<u8>, Seq<u8>)| fold(p.0));
    assert forall|k: int| 0 <= k < ls.len() implies #[trigger] keys[k] == folded[k] by {
        assert(ls[k] == description_lines(ps)[k]);
        assert(first_field(description_lines(ps)[k]) == ps[k].0);
    }
    assert forall|l: int| !first_unsorted(keys, l) by {
        if 1 <= l < keys.len() {
            assert(keys[l - 1] == folded[l - 1]);
            assert(keys[l] == folded[l]);
        }
    }
}

/// No two rows' names fold the same (as crates.io guarantees of its crates).
pub open spec fn folded_names_distinct(rows: Seq<(String, u64, String)>) -> bool {
    forall|i: int, j: int|
        0 <= i < j < rows.len() ==> #[trigger] row_key(rows[i]) != #[trigger] row_key(rows[j])
}

/// Rows in strictly increasing order of their folded names.
spec fn strictly_sorted_by_name(rows: Seq<(String, u64, String)>) -> bool {
    forall|i: int, j: int|
        0 <= i < j < rows.len() ==> lex_lt(#[trigger] row_key(rows[i]), #[trigger] row_key(rows[j]))
}

/// A value at two positions is counted at least twice.
proof fn lemma_count_two(s: Seq<(String, u64, String)>, i: int, j: int)
    requires
        0 <= i < j < s.len(),
        s[i] == s[j],
    ensures
        s.to_multiset().count(s[i]) >= 2,
    decreases s.len(),
{
    broadcast use vstd::multiset::group_multiset_axioms;

    let init = s.drop_last();
    assert(s =~= init.push(s.last()));
    assert(init[i] == s[i]);
    if j == s.len() - 1 {
        assert(init.contains(s[i]));
    } else {
        assert(init[j] == s[j]);
        lemma_count_two(init, i, j);
    }
}

/// Rows whose folded names are distinct occur once each.
proof fn lemma_distinct_counts(s: Seq<(String, u64, String)>)
    requires
        folded_names_distinct(s),
    ensures
        forall|a: (String, u64, String)| s.to_multiset().count(a) <= 1,
    decreases s.len(),
{
    broadcast use vstd::multiset::group_multiset_axioms;

    if s.len() > 0 {
        let init = s.drop_last();
        assert(folded_names_distinct(init)) by {
            assert forall|i: int, j: int| 0 <= i < j < init.len() implies #[trigger] row_key(init[i])
                != #[trigger] row_key(init[j]) by {
                assert(init[i] == s[i]);
                assert(init[j] == s[j]);
            }
        }
        lemma_distinct_counts(init);
        assert(s =~= init.push(s.last()));
        assert(!init.contains(s.last())) by {
            if init.contains(s.last()) {
                let k = choose|k: int| 0 <= k < init.len() && init[k] == s.last();
                assert(s[k] == init[k]);
                assert(row_key(s[k]) != row_key(s[s.len() - 1]));
            }
        }
    }
}

/// Every row of a permutation is a row of the original.
proof fn lemma_permuted_row(crates: Seq<(String, u64, String)>, sorted: Seq<(String, u64, String)>, i: int)
    requires
        sorted.to_multiset() =~= crates.to_multiset(),
        0 <= i < sorted.len(),
    ensures
        exists|p: int| 0 <= p < crates.len() && crates[p] == sorted[i],
{
    assert(sorted.contains(sorted[i]));
    assert(crates.to_multiset().count(sorted[i]) > 0);
    assert(crates.contains(sorted[i]));
}

/// Fitting the fields and the lines does not depend on the order of the rows.
proof fn lemma_fit_permuted(
    crates: Seq<(String, u64, String)>,
    sorted: Seq<(String, u64, String)>,
    dv: Map<u64, u64>,
    vn: Map<u64, String>,
)
    requires
        sorted.to_multiset() =~= crates.to_multiset(),
    ensures
        rows_fit_fields(crates, dv, vn) ==> rows_fit_fields(sorted, dv, vn),
        descriptions_fit_lines(crates) ==> descriptions_fit_lines(sorted),
{
    if rows_fit_fields(crates, dv, vn) {
        assert forall|i: int| 0 <= i < sorted.len() implies field_text(row_name(#[trigger] sorted[i]))
            && (version_of(sorted[i].1, dv, vn) matches Some(v) ==> field_text(v)) by {
            lemma_permuted_row(crates, sorted, i);
            let p = choose|p: int| 0 <= p < crates.len() && crates[p] == sorted[i];
            assert(field_text(row_name(crates[p])));
        }
    }
    if descriptions_fit_lines(crates) {
        assert forall|i: int| 0 <= i < sorted.len() implies line_text(
            encode_utf8((#[trigger] sorted[i]).2@),
        ) by {
            lemma_permuted_row(crates, sorted, i);
            let p = choose|p: int| 0 <= p < crates.len() && crates[p] == sorted[i];
            assert(line_text(encode_utf8(crates[p].2@)));
        }
    }
}

/// Sorted by folded name, rows whose folded names are distinct are strictly sorted.
proof fn lemma_sorted_distinct(crates: Seq<(String, u64, String)>, sorted: Seq<(String, u64, String)>)
    requires
        sorted_by_name(sorted),
        sorted.to_multiset() =~= crates.to_multiset(),
        folded_names_distinct(crates),
    ensures
        strictly_sorted_by_name(sorted),
{
    lemma_distinct_counts(crates);
    assert forall|i: int, j: int| 0 <= i < j < sorted.len() implies lex_lt(
        #[trigger] row_key(sorted[i]),
        #[trigger] row_key(sorted[j]),
    ) by {
        if sorted[i] == sorted[j] {
            lemma_count_two(sorted, i, j);
            assert(crates.to_multiset().count(sorted[i]) <= 1);
        } else {
            lemma_permuted_row(crates, sorted, i);
            lemma_permuted_row(crates, sorted, j);
            let p = choose|p: int| 0 <= p < crates.len() && crates[p] == sorted[i];
            let q = choose|q: int| 0 <= q < crates.len() && crates[q] == sorted[j];
            assert(p != q);
            if p < q {
                assert(row_key(crates[p]) != row_key(crates[q]));
            } else {
                assert(row_key(crates[q]) != row_key(crates[p]));
            }
            assert(!lex_lt(row_key(sorted[j]), row_key(sorted[i])));
            lemma_lex_lt_total(row_key(sorted[i]), row_key(sorted[j]));
        }
    }
}

/// Every entry written for `rows` carries the name of one of the rows.
proof fn lemma_rendered_entries_from_rows(
    rows: Seq<(String, u64, String)>,
    d: Map<u64, u64>,
    dv: Map<u64, u64>,
    vn: Map<u64, String>,
)
    ensures
        forall|m: int|
            0 <= m < rendered_entries(rows, d, dv, vn).len() ==> exists|k: int|
                0 <= k < rows.len() && (#[trigger] rendered_entries(rows, d, dv, vn)[m]).name
                    == row_name(rows[k]),
    decreases rows.len(),
{
    if rows.len() > 0 {
        let init = rows.drop_last();
        lemma_rendered_entries_from_rows(init, d, dv, vn);
        let es = rendered_entries(rows, d, dv, vn);
        let before = rendered_entries(init, d, dv, vn);
        assert forall|m: int| 0 <= m < es.len() implies exists|k: int|
            0 <= k < rows.len() && (#[trigger] es[m]).name == row_name(rows[k]) by {
            if m < before.len() {
                assert(es[m] == before[m]);
                let k = choose|k: int| 0 <= k < init.len() && before[m].name == row_name(init[k]);
                assert(init[k] == rows[k]);
            } else {
                assert(es[m].name == row_name(rows[rows.len() - 1]));
            }
        }
    }
}

/// Rows strictly sorted by folded name give entries strictly sorted by folded name.
proof fn lemma_rendered_entries_sorted(
    rows: Seq<(String, u64, String)>,
    d: Map<u64, u64>,
    dv: Map<u64, u64>,
    vn: Map<u64, String>,
)
    requires
        strictly_sorted_by_name(rows),
    ensures
        strictly_sorted(rendered_entries(rows, d, dv, vn).map_values(|e: EntryView| fold(e.name))),
    decreases rows.len(),
{
    if rows.len() > 0 {
        let init = rows.drop_last();
        assert(strictly_sorted_by_name(init)) by {
            assert forall|i: int, j: int| 0 <= i < j < init.len() implies lex_lt(
                #[trigger] row_key(init[i]),
                #[trigger] row_key(init[j]),
            ) by {
                assert(init[i] == rows[i]);
                assert(init[j] == rows[j]);
            }
        }
        lemma_rendered_entries_sorted(init, d, dv, vn);
        lemma_rendered_entries_from_rows(init, d, dv, vn);
        let es = rendered_entries(rows, d, dv, vn);
        let before = rendered_entries(init, d, dv, vn);
        let f = es.map_values(|e: EntryView| fold(e.name));
        let fb = before.map_values(|e: EntryView| fold(e.name));
        assert forall|i: int, j: int| 0 <= i < j < f.len() implies lex_lt(
            #[trigger] f[i],
            #[trigger] f[j],
        ) by {
            assert(es[i] == before[i]);
            assert(f[i] == fb[i]);
            if j < before.len() {
                assert(es[j] == before[j]);
                assert(f[j] == fb[j]);
            } else {
                let k = choose|k: int| 0 <= k < init.len() && before[i].name == row_name(init[k]);
                assert(init[k] == rows[k]);
                assert(es[j].name == row_name(rows[rows.len() - 1]));
                assert(lex_lt(row_key(rows[k]), row_key(rows[rows.len() - 1])));
            }
        }
    }
}

/// Every pair written for `rows` carries the name of one of the rows.
proof fn lemma_rendered_pairs_from_rows(
    rows: Seq<(String, u64, String)>,
    dv: Map<u64, u64>,
    vn: Map<u64, String>,
)
    ensures
        forall|m: int|
            0 <= m < rendered_description_pairs(rows, dv, vn).len() ==> exists|k: int|
                0 <= k < rows.len() && (#[trigger] rendered_description_pairs(rows, dv, vn)[m]).0
                    == row_name(rows[k]),
    decreases rows.len(),
{
    if rows.len() > 0 {
        let init = rows.drop_last();
        lemma_rendered_pairs_from_rows(init, dv, vn);
        let ps = rendered_description_pairs(rows, dv, vn);
        let before = rendered_description_pairs(init, dv, vn);
        assert forall|m: int| 0 <= m < ps.len() implies exists|k: int|
            0 <= k < rows.len() && (#[trigger] ps[m]).0 == row_name(rows[k]) by {
            if m < before.len() {
                assert(ps[m] == before[m]);
                let k = choose|k: int| 0 <= k < init.len() && before[m].0 == row_name(init[k]);
                assert(init[k] == rows[k]);
            } else {
                assert(ps[m].0 == row_name(rows[rows.len() - 1]));
            }
        }
    }
}

/// Rows strictly sorted by folded name give pairs strictly sorted by folded name.
proof fn lemma_rendered_pairs_sorted(
    rows: Seq<(String, u64, String)>,
    dv: Map<u64, u64>,
    vn: Map<u64, String>,
)
    requires
        strictly_sorted_by_name(rows),
    ensures
        strictly_sorted(
            rendered_description_pairs(rows, dv, vn).map_values(
                |p: (Seq<u8>, Seq<u8>)| fold(p.0),
            ),
        ),
    decreases rows.len(),
{
    if rows.len() > 0 {
        let init = rows.drop_last();
        assert(strictly_sorted_by_name(init)) by {
            assert forall|i: int, j: int| 0 <= i < j < init.len() implies lex_lt(
                #[trigger] row_key(init[i]),
                #[trigger] row_key(init[j]),
            ) by {
                assert(init[i] == rows[i]);
                assert(init[j] == rows[j]);
            }
        }
        lemma_rendered_pairs_sorted(init, dv, vn);
        lemma_rendered_pairs_from_rows(init, dv, vn);
        let ps = rendered_description_pairs(rows, dv, vn);
        let before = rendered_description_pairs(init, dv, vn);
        let f = ps.map_values(|p: (Seq<u8>, Seq<u8>)| fold(p.0));
        let fb = before.map_values(|p: (Seq<u8>, Seq<u8>)| fold(p.0));
        assert forall|i: int, j: int| 0 <= i < j < f.len() implies lex_lt(
            #[trigger] f[i],
            #[trigger] f[j],
        ) by {
            assert(ps[i] == before[i]);
            assert(f[i] == fb[i]);
            if j < before.len() {
                assert(ps[j] == before[j]);
                assert(f[j] == fb[j]);
            } else {
                let k = choose|k: int| 0 <= k < init.len() && before[i].0 == row_name(init[k]);
                assert(init[k] == rows[k]);
                assert(ps[j].0 == row_name(rows[rows.len() - 1]));
                assert(lex_lt(row_key(rows[k]), row_key(rows[rows.len() - 1])));
            }
        }
    }
}

/// A crate-name byte is exactly an ASCII letter or digit, `-` or `_`.
pub proof fn lemma_name_byte_chars(b: u8)
    ensures
        is_name_byte(b) <==> (('0' as u8) <= b <= ('9' as u8) || ('A' as u8) <= b <= ('Z' as u8)
            || ('a' as u8) <= b <= ('z' as u8) || b == ('-' as u8) || b == ('_' as u8)),
{
}

/// A byte is allowed in a crate name exactly when it folds to a lower-case
/// ASCII letter, a digit or `_`: both cases of every letter are allowed.
pub proof fn lemma_name_byte_folds(b: u8)
    ensures
        is_name_byte(b) <==> (('0' as u8) <= fold_byte(b) <= ('9' as u8) || ('a' as u8) <= fold_byte(b)
            <= ('z' as u8) || fold_byte(b) == ('_' as u8)),
{
}

/// `e` is what the names artifact says of crate row `row`: its name, the
/// number of the version that the default-versions table gives for its id
/// (which must be there, naming a known version), and the rank of its
/// downloads (0 when unknown).
pub open spec fn written_for_row(
    e: EntryView,
    row: (String, u64, String),
    d: Map<u64, u64>,
    dv: Map<u64, u64>,
    vn: Map<u64, String>,
) -> bool {
    &&& dv.contains_key(row.1)
    &&& vn.contains_key(dv[row.1])
    &&& e.name == encode_utf8(row.0@)
    &&& e.version == encode_utf8(vn[dv[row.1]]@)
    &&& e.rank == rank_of(
        if d.contains_key(row.1) {
            d[row.1]
        } else {
            0
        },
    )
}

/// A crate is written only under its own default version: every entry the
/// names artifact holds for `rows` is written for one of the rows.
pub proof fn lemma_rendered_entries_from_default_versions(
    rows: Seq<(String, u64, String)>,
    d: Map<u64, u64>,
    dv: Map<u64, u64>,
    vn: Map<u64, String>,
)
    ensures
        forall|m: int|
            0 <= m < rendered_entries(rows, d, dv, vn).len() ==> exists|k: int|
                0 <= k < rows.len() && written_for_row(
                    #[trigger] rendered_entries(rows, d, dv, vn)[m],
                    rows[k],
                    d,
                    dv,
                    vn,
                ),
    decreases rows.len(),
{
    if rows.len() > 0 {
        let init = rows.drop_last();
        lemma_rendered_entries_from_default_versions(init, d, dv, vn);
        let es = rendered_entries(rows, d, dv, vn);
        let before = rendered_entries(init, d, dv, vn);
        let last = rows.len() - 1;
        assert(rows.last() == rows[last]);
        assert forall|m: int| 0 <= m < es.len() implies exists|k: int|
            0 <= k < rows.len() && written_for_row(#[trigger] es[m], rows[k], d, dv, vn) by {
            if m < before.len() {
                assert(es[m] == before[m]);
                let k = choose|k: int| 0 <= k < init.len() && written_for_row(before[m], init[k], d, dv, vn);
                assert(init[k] == rows[k]);
                assert(written_for_row(es[m], rows[k], d, dv, vn));
            } else {
                assert(version_of(rows[last].1, dv, vn) is Some);
                assert(written_for_row(es[m], rows[last], d, dv, vn));
            }
        }
    }
}

/// Rows whose ids have no row in the default-versions table write nothing
/// to either artifact, and none of them is counted as written.
pub proof fn lemma_rows_without_default_version(
    rows: Seq<(String, u64, String)>,
    d: Map<u64, u64>,
    dv: Map<u64, u64>,
    vn: Map<u64, String>,
)
    requires
        forall|k: int| 0 <= k < rows.len() ==> !dv.contains_key(#[trigger] rows[k].1),
    ensures
        rendered_names(rows, d, dv, vn) == Seq::<u8>::empty(),
        rendered_descriptions(rows, dv, vn) == Seq::<u8>::empty(),
        rendered_count(rows, dv, vn) == 0,
    decreases rows.len(),
{
    if rows.len() > 0 {
        let init = rows.drop_last();
        assert forall|k: int| 0 <= k < init.len() implies !dv.contains_key(#[trigger] init[k].1) by {
            assert(init[k] == rows[k]);
        }
        lemma_rows_without_default_version(init, d, dv, vn);
        assert(rows.last() == rows[rows.len() - 1]);
    }
}

/// The rank field the builder writes reads back as that rank.
pub proof fn lemma_rank_field_reads_back(rank: u8)
    ensures
        parse_rank(decimal(rank)) == Some(rank),
{
    lemma_decimal_reads_back(rank);
}

} // verus!
