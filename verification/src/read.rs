//! Sans-io readers for the published artifacts.
use crate::builder::{lemma_ascii_valid_utf8, push_all};
use crate::decode::{io_error_text, string_from_utf8, utf8_error_text, zstd_decode_all, zstd_decoded};
use crate::order::{
    fold, fold_bytes, folded_equals_key, folded_less, folded_less_than_key, folded_starts_with,
    lemma_lex_lt_irreflexive, lemma_lex_lt_transitive, lex_lt, starts_with,
};
use crate::text::{lemma_ascii_boundaries, substr};
use crate::tsv::{
    below, count_below, description_pairs, split_once_tab, first_field, parse_entry, parse_rank_field, parse_u64, split_fields, EntryView, first_unsorted, is_partition_point, key_of, keys_of,
    lemma_below_monotonic, lemma_count_below_partition, lemma_first_field, lemma_partition_point_unique,
    lemma_prefix_block, lemma_split_lines_last, lemma_split_lines_step, split_lines,
    strictly_sorted, NEWLINE, TAB,
};
use core::ops::Range;
use std::io::Error as IoError;
use std::string::FromUtf8Error;
use vstd::prelude::*;
use vstd::slice::slice_subrange;
use vstd::string::StringSliceAdditionalSpecFns;
use vstd::utf8::{encode_utf8, is_char_boundary, valid_utf8};

verus! {

broadcast use vstd::utf8::group_utf8_lib;

/// Error returned when parsing an artifact.
#[derive(Debug)]
pub enum Error {
    /// zstd decompression failed
    Zstd(IoError),
    /// decompressed artifact was not valid utf8
    Utf8(FromUtf8Error),
    /// artifact exceeds the 4GiB this reader supports
    TooLarge,
    /// lines were not sorted (or not unique) by crate name
    Unsorted {
        /// 0-indexed line number
        line: usize,
    },
    /// a line did not have the expected fields
    Malformed {
        /// 0-indexed line number
        line: usize,
    },
}

/// Why an artifact is refused, without the payload of the outside errors.
pub enum Rejection {
    Decompression,
    Encoding,
    TooLarge,
    Unsorted(nat),
    Malformed(nat),
}

/// The decimal digits of `n`, without leading zeros.
pub open spec fn decimal_text(n: nat) -> Seq<u8>
    decreases n,
{
    if n < 10 {
        seq![(0x30 + n) as u8]
    } else {
        decimal_text(n / 10).push((0x30 + n % 10) as u8)
    }
}

proof fn lemma_decimal_text_ascii(n: nat)
    ensures
        forall|k: int| 0 <= k < decimal_text(n).len() ==> #[trigger] decimal_text(n)[k] < 0x80,
    decreases n,
{
    if n >= 10 {
        lemma_decimal_text_ascii(n / 10);
        let d = decimal_text(n);
        let before = decimal_text(n / 10);
        assert forall|k: int| 0 <= k < d.len() implies #[trigger] d[k] < 0x80 by {
            if k < before.len() {
                assert(d[k] == before[k]);
            }
        }
    }
}

/// Appends the decimal digits of `n`.
fn push_usize_decimal(out: &mut Vec<u8>, n: usize)
    ensures
        final(out)@ == old(out)@ + decimal_text(n as nat),
    decreases n,
{
    if n >= 10 {
        push_usize_decimal(out, n / 10);
    }
    let digit: u8 = (n % 10) as u8;
    out.push(0x30 + digit);
    proof {
        if n >= 10 {
            assert(final(out)@ =~= old(out)@ + decimal_text(n as nat));
        } else {
            assert(final(out)@ =~= old(out)@ + decimal_text(n as nat));
        }
    }
}

impl Error {
    /// The error as a sentence for people: what went wrong, and where.
    pub fn message(&self) -> (r: String)
        ensures
            match self {
                Error::Zstd(_) => "zstd decompression failed: ".spec_bytes().is_prefix_of(
                    encode_utf8(r@),
                ),
                Error::Utf8(_) => "artifact was not valid utf8: ".spec_bytes().is_prefix_of(
                    encode_utf8(r@),
                ),
                Error::TooLarge => encode_utf8(r@) == "artifact exceeds supported size".spec_bytes(),
                Error::Unsorted { line } => encode_utf8(r@)
                    == "artifact not sorted by name at line ".spec_bytes() + decimal_text(
                    *line as nat,
                ),
                Error::Malformed { line } => encode_utf8(r@) == "malformed artifact line ".spec_bytes()
                    + decimal_text(*line as nat),
            },
    {
        let mut out: Vec<u8> = Vec::new();
        match self {
            Error::Zstd(e) => {
                let head = "zstd decompression failed: ";
                push_all(&mut out, head.as_bytes());
                let text = io_error_text(e);
                push_all(&mut out, text.as_str().as_bytes());
                proof {
                    assert(valid_utf8(head.spec_bytes() + encode_utf8(text@)));
                    assert(head.spec_bytes().is_prefix_of(out@)) by {
                        assert(out@.subrange(0, head.spec_bytes().len() as int) =~= head.spec_bytes());
                    }
                }
            },
            Error::Utf8(e) => {
                let head = "artifact was not valid utf8: ";
                push_all(&mut out, head.as_bytes());
                let text = utf8_error_text(e);
                push_all(&mut out, text.as_str().as_bytes());
                proof {
                    assert(valid_utf8(head.spec_bytes() + encode_utf8(text@)));
                    assert(head.spec_bytes().is_prefix_of(out@)) by {
                        assert(out@.subrange(0, head.spec_bytes().len() as int) =~= head.spec_bytes());
                    }
                }
            },
            Error::TooLarge => {
                let head = "artifact exceeds supported size";
                push_all(&mut out, head.as_bytes());
                assert(out@ =~= head.spec_bytes());
            },
            Error::Unsorted { line } => {
                let head = "artifact not sorted by name at line ";
                push_all(&mut out, head.as_bytes());
                push_usize_decimal(&mut out, *line);
                proof {
                    lemma_decimal_text_ascii(*line as nat);
                    lemma_ascii_valid_utf8(decimal_text(*line as nat));
                    assert(out@ =~= head.spec_bytes() + decimal_text(*line as nat));
                }
            },
            Error::Malformed { line } => {
                let head = "malformed artifact line ";
                push_all(&mut out, head.as_bytes());
                push_usize_decimal(&mut out, *line);
                proof {
                    lemma_decimal_text_ascii(*line as nat);
                    lemma_ascii_valid_utf8(decimal_text(*line as nat));
                    assert(out@ =~= head.spec_bytes() + decimal_text(*line as nat));
                }
            },
        }
        match string_from_utf8(out) {
            Ok(s) => s,
            Err(_) => {
                assert(false);
                String::new()
            },
        }
    }

    pub open spec fn rejection(&self) -> Rejection {
        match self {
            Error::Zstd(_) => Rejection::Decompression,
            Error::Utf8(_) => Rejection::Encoding,
            Error::TooLarge => Rejection::TooLarge,
            Error::Unsorted { line } => Rejection::Unsorted(*line as nat),
            Error::Malformed { line } => Rejection::Malformed(*line as nat),
        }
    }
}

/// Why decompressed text `b` is refused, if it is: too large for 32-bit
/// offsets, else the first line out of folded order, else (when every line
/// must be an entry) the first line that is not one.
pub open spec fn text_rejection(b: Seq<u8>, entries: bool) -> Option<Rejection> {
    let ls = split_lines(b);
    let keys = keys_of(ls);
    if b.len() > u32::MAX {
        Some(Rejection::TooLarge)
    } else if exists|l: int| first_unsorted(keys, l) {
        Some(Rejection::Unsorted((choose|l: int| first_unsorted(keys, l)) as nat))
    } else if entries && exists|l: int| crate::tsv::first_malformed(ls, l) {
        Some(Rejection::Malformed((choose|l: int| crate::tsv::first_malformed(ls, l)) as nat))
    } else {
        None
    }
}

/// Why decompressed bytes are refused: invalid UTF-8, else as text.
pub open spec fn bytes_rejection(b: Seq<u8>, entries: bool) -> Option<Rejection> {
    if valid_utf8(b) {
        text_rejection(b, entries)
    } else {
        Some(Rejection::Encoding)
    }
}

/// Why a compressed artifact is refused: it does not decompress, else as bytes.
pub open spec fn compressed_rejection(c: Seq<u8>, entries: bool) -> Option<Rejection> {
    match zstd_decoded(c) {
        Some(d) => bytes_rejection(d, entries),
        None => Some(Rejection::Decompression),
    }
}

/// Line `i` of `ls` sits in `b` at `off[i]`, ends before a `\n` or at
/// `off[i + 1]`, and both of its ends are character boundaries.
pub open spec fn line_placed(b: Seq<u8>, off: Seq<u32>, ls: Seq<Seq<u8>>, i: int) -> bool {
    let s = off[i] as int;
    let e = s + ls[i].len();
    let next = off[i + 1] as int;
    &&& s <= e <= next <= b.len()
    &&& b.subrange(s, e) =~= ls[i]
    &&& (next == e || (next == e + 1 && b[e] == NEWLINE))
    &&& forall|k: int| s <= k < e ==> b[k] != NEWLINE
    &&& is_char_boundary(b, s)
    &&& is_char_boundary(b, e)
}

/// The decompressed text of an artifact plus line offsets. TSV sorted by
/// folded name needs no further indexing: prefix queries are two binary
/// searches.
#[derive(Debug)]
struct SortedTsv {
    text: String,
    /// byte offset of each line start, plus a sentinel at `text.len()`
    offsets: Vec<u32>,
}

impl SortedTsv {
    closed spec fn bytes(&self) -> Seq<u8> {
        encode_utf8(self.text@)
    }

    closed spec fn lines(&self) -> Seq<Seq<u8>> {
        split_lines(self.bytes())
    }

    closed spec fn keys(&self) -> Seq<Seq<u8>> {
        keys_of(self.lines())
    }

    closed spec fn shape_ok(&self) -> bool {
        let b = self.bytes();
        let ls = self.lines();
        let off = self.offsets@;
        &&& b.len() <= u32::MAX
        &&& off.len() == ls.len() + 1
        &&& off[0] == 0
        &&& off[ls.len() as int] == b.len()
        &&& forall|i: int| 0 <= i < ls.len() ==> #[trigger] line_placed(b, off, ls, i)
    }

    closed spec fn wf(&self) -> bool {
        self.shape_ok() && strictly_sorted(self.keys())
    }

    fn bytes_exec(&self) -> (r: &[u8])
        ensures
            r@ == self.bytes(),
    {
        self.text.as_str().as_bytes()
    }

    fn from_zstd(bytes: &[u8]) -> (r: Result<Self, Error>)
        ensures
            match r {
                Ok(t) => t.wf() && zstd_decoded(bytes@) == Some(t.bytes()) && compressed_rejection(
                    bytes@,
                    false,
                ) is None,
                Err(e) => compressed_rejection(bytes@, false) == Some(e.rejection()),
            },
    {
        let decompressed = match zstd_decode_all(bytes) {
            Ok(v) => v,
            Err(e) => return Err(Error::Zstd(e)),
        };
        Self::from_decompressed(decompressed)
    }

    fn from_decompressed(bytes: Vec<u8>) -> (r: Result<Self, Error>)
        ensures
            match r {
                Ok(t) => t.wf() && t.bytes() == bytes@ && bytes_rejection(bytes@, false) is None,
                Err(e) => bytes_rejection(bytes@, false) == Some(e.rejection()),
            },
    {
        let ghost b = bytes@;
        match string_from_utf8(bytes) {
            Ok(text) => Self::from_text(text),
            Err(e) => Err(Error::Utf8(e)),
        }
    }

    fn from_text(text: String) -> (r: Result<Self, Error>)
        ensures
            match r {
                Ok(t) => t.wf() && t.text@ == text@ && text_rejection(encode_utf8(text@), false) is None,
                Err(e) => text_rejection(encode_utf8(text@), false) == Some(e.rejection()),
            },
    {
        let ghost tb = encode_utf8(text@);
        let offsets = {
            let b = text.as_str().as_bytes();
            let n = b.len();
            if n > 0xFFFF_FFFF {
                return Err(Error::TooLarge);
            }
            let mut offsets: Vec<u32> = Vec::new();
            offsets.push(0);
            let mut i: usize = 0;
            let mut cur: usize = 0;
            let ghost mut done: Seq<Seq<u8>> = seq![];
            proof {
                assert(tb.skip(0) =~= tb);
            }
            while i < n
                invariant
                    b@ == tb,
                    n == tb.len(),
                    n <= u32::MAX,
                    valid_utf8(tb),
                    cur <= i <= n,
                    offsets@.len() == done.len() + 1,
                    offsets@[0] == 0,
                    offsets@[done.len() as int] == cur,
                    forall|k: int| cur <= k < i ==> tb[k] != NEWLINE,
                    split_lines(tb) =~= done + split_lines(tb.skip(cur as int)),
                    is_char_boundary(tb, cur as int),
                    forall|j: int|
                        0 <= j < done.len() ==> #[trigger] line_placed(tb, offsets@, done, j),
                    forall|j: int|
                        0 <= j < done.len() ==> offsets@[j + 1] == offsets@[j] + done[j].len() + 1,
                decreases n - i,
            {
                if b[i] == NEWLINE {
                    proof {
                        lemma_split_lines_step(tb, cur as int, i as int);
                        lemma_ascii_boundaries(tb, i as int);
                    }
                    let ghost old_off = offsets@;
                    let ghost old_done = done;
                    offsets.push((i + 1) as u32);
                    proof {
                        done = done.push(tb.subrange(cur as int, i as int));
                        assert(split_lines(tb) =~= done + split_lines(tb.skip(i + 1)));
                        assert forall|j: int| 0 <= j < done.len() implies #[trigger] line_placed(
                            tb,
                            offsets@,
                            done,
                            j,
                        ) by {
                            if j < old_done.len() {
                                assert(line_placed(tb, old_off, old_done, j));
                                assert(offsets@[j] == old_off[j]);
                                assert(offsets@[j + 1] == old_off[j + 1]);
                                assert(done[j] == old_done[j]);
                            }
                        }
                        assert forall|j: int| 0 <= j < done.len() implies offsets@[j + 1]
                            == offsets@[j] + done[j].len() + 1 by {
                            if j < old_done.len() {
                                assert(done[j] == old_done[j]);
                            }
                        }
                    }
                    cur = i + 1;
                }
                i = i + 1;
            }
            proof {
                lemma_split_lines_last(tb, cur as int);
            }
            if cur < n {
                let ghost old_off = offsets@;
                offsets.push(n as u32);
                proof {
                    let old_done = done;
                    done = done.push(tb.skip(cur as int));
                    assert(split_lines(tb) =~= done);
                    assert forall|j: int| 0 <= j < done.len() implies #[trigger] line_placed(
                        tb,
                        offsets@,
                        done,
                        j,
                    ) by {
                        if j < old_done.len() {
                            assert(line_placed(tb, old_off, old_done, j));
                            assert(offsets@[j] == old_off[j]);
                            assert(offsets@[j + 1] == old_off[j + 1]);
                            assert(done[j] == old_done[j]);
                        } else {
                            assert(tb.subrange(cur as int, n as int) =~= tb.skip(cur as int));
                        }
                    }
                }
            } else {
                proof {
                    assert(split_lines(tb) =~= done);
                }
            }
            offsets
        };
        let ghost tview = text@;
        let tsv = SortedTsv { text, offsets };
        assert(tsv.shape_ok());
        let len = tsv.len();
        let mut line: usize = 1;
        while line < len
            invariant
                tsv.shape_ok(),
                tsv.text@ == tview,
                tview == text@,
                len == tsv.lines().len(),
                1 <= line,
                line <= len || len == 0,
                forall|a: int, c: int|
                    0 <= a < c < line && c < len ==> lex_lt(
                        #[trigger] tsv.keys()[a],
                        #[trigger] tsv.keys()[c],
                    ),
            decreases len - line,
        {
            let prev = tsv.name(line - 1);
            let this = tsv.name(line);
            if !folded_less(prev, this) {
                proof {
                    let keys = tsv.keys();
                    assert(first_unsorted(keys, line as int));
                    assert forall|l: int| first_unsorted(keys, l) implies l == line by {
                        if l < line {
                            assert(lex_lt(keys[l - 1], keys[l]));
                        } else if l > line {
                            assert(lex_lt(keys[line - 1], keys[line as int]));
                        }
                    }
                    let c = choose|l: int| first_unsorted(keys, l);
                    assert(first_unsorted(keys, c));
                    assert(c == line);
                }
                return Err(Error::Unsorted { line });
            }
            proof {
                let keys = tsv.keys();
                assert forall|a: int, c: int|
                    0 <= a < c < line + 1 && c < len implies lex_lt(
                    #[trigger] keys[a],
                    #[trigger] keys[c],
                ) by {
                    if c == line && a < line - 1 {
                        lemma_lex_lt_transitive(keys[a], keys[line - 1], keys[c]);
                    }
                }
            }
            line = line + 1;
        }
        proof {
            let keys = tsv.keys();
            assert(strictly_sorted(keys));
            assert forall|l: int| !first_unsorted(keys, l) by {
                if 1 <= l < keys.len() {
                    assert(lex_lt(keys[l - 1], keys[l]));
                }
            }
        }
        Ok(tsv)
    }

    fn len(&self) -> (r: usize)
        requires
            self.shape_ok(),
        ensures
            r == self.lines().len(),
    {
        self.offsets.len() - 1
    }

    /// Byte positions of line `index`, without its `\n`.
    fn line_range(&self, index: usize) -> (r: (usize, usize))
        requires
            self.shape_ok(),
            index < self.lines().len(),
        ensures
            r.0 == self.offsets@[index as int],
            r.1 == r.0 + self.lines()[index as int].len(),
            self.bytes().subrange(r.0 as int, r.1 as int) == self.lines()[index as int],
            r.1 <= self.bytes().len(),
            is_char_boundary(self.bytes(), r.0 as int),
            is_char_boundary(self.bytes(), r.1 as int),
    {
        let b = self.bytes_exec();
        proof {
            assert(line_placed(self.bytes(), self.offsets@, self.lines(), index as int));
        }
        let count = self.offsets.len();
        assert(index + 1 < count);
        let start = self.offsets[index] as usize;
        let next = self.offsets[index + 1] as usize;
        if next > start && b[next - 1] == NEWLINE {
            (start, next - 1)
        } else {
            (start, next)
        }
    }

    /// Line `index`, without its `\n`.
    fn line(&self, index: usize) -> (r: &str)
        requires
            self.shape_ok(),
            index < self.lines().len(),
        ensures
            r.spec_bytes() == self.lines()[index as int],
    {
        let (start, end) = self.line_range(index);
        substr(self.text.as_str(), start, end)
    }

    /// The name (first field) of line `index`.
    fn name(&self, index: usize) -> (r: &[u8])
        requires
            self.shape_ok(),
            index < self.lines().len(),
        ensures
            r@ == first_field(self.lines()[index as int]),
            fold(r@) == self.keys()[index as int],
    {
        let (start, end) = self.line_range(index);
        let b = self.bytes_exec();
        let stop = field_end(b, start, end);
        proof {
            let line = self.lines()[index as int];
            lemma_first_field(line, stop - start);
            assert(line.take(stop - start) =~= b@.subrange(start as int, stop as int));
        }
        slice_subrange(b, start, stop)
    }

    /// Line `index` split at its first tab.
    fn split_line(&self, index: usize) -> (r: Option<(&str, &str)>)
        requires
            self.shape_ok(),
            index < self.lines().len(),
        ensures
            match r {
                Some(p) => split_once_tab(self.lines()[index as int]) == Some(
                    (p.0.spec_bytes(), p.1.spec_bytes()),
                ),
                None => split_once_tab(self.lines()[index as int]) is None,
            },
    {
        let ghost line = self.lines()[index as int];
        let (start, end) = self.line_range(index);
        let b = self.bytes_exec();
        let ghost bs = b@;
        let tab = field_end(b, start, end);
        proof {
            assert(forall|k: int| 0 <= k < end - start ==> line[k] == bs[start + k]);
            crate::tsv::lemma_index_of(line, TAB, tab - start);
        }
        if tab == end {
            return None;
        }
        proof {
            lemma_ascii_boundaries(bs, tab as int);
            assert(line.take(tab - start) =~= bs.subrange(start as int, tab as int));
            assert(line.skip(tab - start + 1) =~= bs.subrange(tab + 1, end as int));
        }
        let text = self.text.as_str();
        let name = substr(text, start, tab);
        let description = substr(text, tab + 1, end);
        Some((name, description))
    }

    /// index of the first line for which the bound test is false: the
    /// folded name sorts below `key` (or, with `prefixed`, starts with it).
    fn partition_point(&self, key: &[u8], prefixed: bool) -> (r: usize)
        requires
            self.wf(),
        ensures
            r == count_below(self.keys(), key@, prefixed),
            is_partition_point(self.keys(), key@, prefixed, r as int),
    {
        let ghost keys = self.keys();
        let mut low: usize = 0;
        let mut high: usize = self.len();
        while low < high
            invariant
                self.wf(),
                keys == self.keys(),
                0 <= low <= high <= keys.len(),
                forall|i: int| 0 <= i < low ==> below(#[trigger] keys[i], key@, prefixed),
                forall|i: int| high <= i < keys.len() ==> !below(#[trigger] keys[i], key@, prefixed),
            decreases high - low,
        {
            let mid = low + (high - low) / 2;
            let name = self.name(mid);
            let hit = folded_less_than_key(name, key) || (prefixed && folded_starts_with(name, key));
            if hit {
                proof {
                    assert forall|i: int| 0 <= i < mid + 1 implies below(
                        #[trigger] keys[i],
                        key@,
                        prefixed,
                    ) by {
                        if i < mid {
                            lemma_below_monotonic(keys[i], keys[mid as int], key@, prefixed);
                        }
                    }
                }
                low = mid + 1;
            } else {
                proof {
                    assert forall|i: int| mid <= i < keys.len() implies !below(
                        #[trigger] keys[i],
                        key@,
                        prefixed,
                    ) by {
                        if i > mid && below(keys[i], key@, prefixed) {
                            lemma_below_monotonic(keys[mid as int], keys[i], key@, prefixed);
                        }
                    }
                }
                high = mid;
            }
        }
        proof {
            lemma_count_below_partition(keys, key@, prefixed);
            lemma_partition_point_unique(
                keys,
                key@,
                prefixed,
                low as int,
                count_below(keys, key@, prefixed) as int,
            );
        }
        low
    }

    /// The lines whose folded name starts with the folded `prefix`. Folding
    /// the needle once here keeps every comparison in the binary search
    /// allocation-free.
    fn prefix_range(&self, prefix: &str) -> (r: Range<usize>)
        requires
            self.wf(),
        ensures
            r.start == count_below(self.keys(), fold(prefix.spec_bytes()), false),
            r.end == count_below(self.keys(), fold(prefix.spec_bytes()), true),
            r.start <= r.end <= self.lines().len(),
    {
        let key = fold_bytes(prefix.as_bytes());
        let start = self.partition_point(key.as_slice(), false);
        let end = self.partition_point(key.as_slice(), true);
        proof {
            lemma_prefix_block(self.keys(), key@);
        }
        start..end
    }

    /// The line whose folded name is the folded `name`, if there is one.
    fn find(&self, name: &str) -> (r: Option<usize>)
        requires
            self.wf(),
        ensures
            match r {
                Some(i) => i < self.lines().len() && self.keys()[i as int] == fold(
                    name.spec_bytes(),
                ),
                None => forall|i: int|
                    0 <= i < self.lines().len() ==> self.keys()[i] != fold(name.spec_bytes()),
            },
    {
        let key = fold_bytes(name.as_bytes());
        let index = self.partition_point(key.as_slice(), false);
        if index < self.len() && folded_equals_key(self.name(index), key.as_slice()) {
            Some(index)
        } else {
            proof {
                let keys = self.keys();
                assert forall|i: int| 0 <= i < keys.len() implies keys[i] != key@ by {
                    if i < index {
                        lemma_lex_lt_irreflexive(key@);
                    } else if i > index && keys[i] == key@ {
                        assert(lex_lt(keys[index as int], keys[i]));
                    }
                }
            }
            None
        }
    }
}

/// End of the field that starts at `from`: the first tab before `end`, or `end`.
fn field_end(b: &[u8], from: usize, end: usize) -> (r: usize)
    requires
        from <= end <= b@.len(),
    ensures
        from <= r <= end,
        forall|k: int| from <= k < r ==> b@[k] != TAB,
        r == end || b@[r as int] == TAB,
{
    let mut i = from;
    while i < end
        invariant
            from <= i <= end <= b@.len(),
            forall|k: int| from <= k < i ==> b@[k] != TAB,
        decreases end - i,
    {
        if b[i] == TAB {
            return i;
        }
        i = i + 1;
    }
    i
}


/// A single crate in the names artifact.
#[derive(Debug, Clone, Copy, PartialEq, Eq)]
pub struct Entry<'a> {
    /// the crate's name
    pub name: &'a str,
    /// the crates.io "default version": the version the crates.io ui
    /// itself presents, typically the highest stable non-yanked release
    pub version: &'a str,
    /// log-quantized all-time downloads; see [`crate::rank_from_downloads`]
    pub rank: u8,
}

impl<'a> View for Entry<'a> {
    type V = EntryView;

    open spec fn view(&self) -> EntryView {
        EntryView { name: self.name.spec_bytes(), version: self.version.spec_bytes(), rank: self.rank }
    }
}

/// The views of a sequence of entries.
pub open spec fn views<'a>(v: Seq<Entry<'a>>) -> Seq<EntryView> {
    v.map_values(|e: Entry<'a>| e@)
}

/// The entry a line reads as (meaningful when it reads as one).
pub open spec fn entry_of(line: Seq<u8>) -> EntryView {
    parse_entry(line)->0
}

/// The entries of the lines whose folded name starts with `key`, in order.
pub open spec fn prefix_entries(lines: Seq<Seq<u8>>, key: Seq<u8>) -> Seq<EntryView> {
    let keys = keys_of(lines);
    lines.subrange(count_below(keys, key, false) as int, count_below(keys, key, true) as int).map_values(
        |l: Seq<u8>| entry_of(l),
    )
}

/// Typeahead order: higher rank first, ties broken by name byte order.
pub open spec fn ranked_before(a: EntryView, b: EntryView) -> bool {
    a.rank > b.rank || (a.rank == b.rank && lex_lt(a.name, b.name))
}

/// `r` is the `limit` best of `m` in typeahead order, best first: as many as
/// `limit` allows, each from `m`, and every entry of `m` left out comes after
/// all of them.
pub open spec fn is_top(r: Seq<EntryView>, m: Seq<EntryView>, limit: int) -> bool {
    &&& r.len() == if limit < m.len() {
        limit
    } else {
        m.len() as int
    }
    &&& forall|i: int, j: int| 0 <= i < j < r.len() ==> ranked_before(#[trigger] r[i], #[trigger] r[j])
    &&& forall|i: int| 0 <= i < r.len() ==> m.contains(#[trigger] r[i])
    &&& forall|i: int|
        0 <= i < m.len() ==> r.contains(#[trigger] m[i]) || (r.len() == limit && forall|k: int|
            0 <= k < r.len() ==> ranked_before(#[trigger] r[k], m[i]))
}

/// Reader for the names artifact (`names-v1.tsv.zst`): every crate name
/// with its default version and download rank.
#[derive(Debug)]
pub struct CrateNames(SortedTsv);

impl View for CrateNames {
    type V = Seq<Seq<u8>>;

    /// The lines of the artifact, without their `\n`.
    closed spec fn view(&self) -> Seq<Seq<u8>> {
        self.0.lines()
    }
}

impl CrateNames {
    /// Sorted and unique by folded name, and every line reads as an entry.
    pub closed spec fn wf(&self) -> bool {
        &&& self.0.wf()
        &&& forall|i: int| 0 <= i < self@.len() ==> #[trigger] parse_entry(self@[i]) is Some
    }

    /// Parse a zstd-compressed names artifact.
    pub fn from_zstd(bytes: &[u8]) -> (r: Result<Self, Error>)
        ensures
            match r {
                Ok(n) => {
                    &&& n.wf()
                    &&& compressed_rejection(bytes@, true) is None
                    &&& n@ == split_lines(zstd_decoded(bytes@)->0)
                },
                Err(e) => compressed_rejection(bytes@, true) == Some(e.rejection()),
            },
    {
        match SortedTsv::from_zstd(bytes) {
            Ok(tsv) => Self::validate(tsv),
            Err(e) => Err(e),
        }
    }

    /// Parse a decompressed names artifact that is still to be checked as UTF-8.
    pub fn from_decompressed(bytes: Vec<u8>) -> (r: Result<Self, Error>)
        ensures
            match r {
                Ok(n) => {
                    &&& n.wf()
                    &&& bytes_rejection(bytes@, true) is None
                    &&& n@ == split_lines(bytes@)
                },
                Err(e) => bytes_rejection(bytes@, true) == Some(e.rejection()),
            },
    {
        match SortedTsv::from_decompressed(bytes) {
            Ok(tsv) => Self::validate(tsv),
            Err(e) => Err(e),
        }
    }

    /// Parse an already-decompressed names artifact.
    pub fn from_tsv(text: String) -> (r: Result<Self, Error>)
        ensures
            match r {
                Ok(n) => {
                    &&& n.wf()
                    &&& text_rejection(encode_utf8(text@), true) is None
                    &&& n@ == split_lines(encode_utf8(text@))
                },
                Err(e) => text_rejection(encode_utf8(text@), true) == Some(e.rejection()),
            },
    {
        match SortedTsv::from_text(text) {
            Ok(tsv) => Self::validate(tsv),
            Err(e) => Err(e),
        }
    }

    fn validate(tsv: SortedTsv) -> (r: Result<Self, Error>)
        requires
            tsv.wf(),
        ensures
            match r {
                Ok(n) => n.wf() && n@ == tsv.lines() && !exists|l: int|
                    crate::tsv::first_malformed(tsv.lines(), l),
                Err(e) => match e {
                    Error::Malformed { line } => crate::tsv::first_malformed(
                        tsv.lines(),
                        line as int,
                    ) && (choose|l: int| crate::tsv::first_malformed(tsv.lines(), l)) == line,
                    _ => false,
                },
            },
    {
        let ghost tl = tsv.lines();
        let names = Self(tsv);
        let len = names.0.len();
        let mut line: usize = 0;
        while line < len
            invariant
                names.0.wf(),
                names@ == tl,
                tl == tsv.lines(),
                len == names@.len(),
                line <= len,
                forall|k: int| 0 <= k < line ==> #[trigger] parse_entry(names@[k]) is Some,
            decreases len - line,
        {
            if names.entry(line).is_none() {
                proof {
                    let ls = names@;
                    assert(crate::tsv::first_malformed(ls, line as int));
                    assert forall|l: int| crate::tsv::first_malformed(ls, l) implies l == line by {
                        if l < line {
                            assert(parse_entry(ls[l]) is Some);
                        } else if l > line {
                            assert(parse_entry(ls[line as int]) is Some);
                        }
                    }
                    let c = choose|l: int| crate::tsv::first_malformed(ls, l);
                    assert(crate::tsv::first_malformed(ls, c));
                    assert(ls == tl);
                    assert(crate::tsv::first_malformed(tl, line as int));
                    assert(c == line);
                    assert((choose|l: int| crate::tsv::first_malformed(tl, l)) == line);
                }
                return Err(Error::Malformed { line });
            }
            line = line + 1;
        }
        proof {
            assert forall|l: int| !crate::tsv::first_malformed(names@, l) by {
                if 0 <= l < len {
                    assert(parse_entry(names@[l]) is Some);
                }
            }
        }
        Ok(names)
    }

    /// The entry on line `index`, if the line reads as one.
    fn entry(&self, index: usize) -> (r: Option<Entry<'_>>)
        requires
            self.0.shape_ok(),
            index < self@.len(),
        ensures
            match r {
                Some(e) => parse_entry(self@[index as int]) == Some(e@),
                None => parse_entry(self@[index as int]) is None,
            },
    {
        let ghost line = self@[index as int];
        let (start, end) = self.0.line_range(index);
        let b = self.0.bytes_exec();
        let ghost bs = b@;
        assert(forall|k: int| 0 <= k < end - start ==> line[k] == bs[start + k]);
        let t1 = field_end(b, start, end);
        if t1 == end {
            proof {
                crate::tsv::lemma_split_fields_none(line);
            }
            return None;
        }
        let t2 = field_end(b, t1 + 1, end);
        if t2 == end {
            proof {
                crate::tsv::lemma_split_fields_two(line, t1 - start);
            }
            return None;
        }
        let t3 = field_end(b, t2 + 1, end);
        if t3 < end {
            proof {
                crate::tsv::lemma_split_fields_many(line, t1 - start, t2 - start, t3 - start);
            }
            return None;
        }
        proof {
            crate::tsv::lemma_split_fields_three(line, t1 - start, t2 - start);
            assert(line.skip(t2 - start + 1) =~= bs.subrange(t2 + 1, end as int));
        }
        let rank = match parse_rank_field(slice_subrange(b, t2 + 1, end)) {
            Some(rank) => rank,
            None => return None,
        };
        proof {
            lemma_ascii_boundaries(bs, t1 as int);
            lemma_ascii_boundaries(bs, t2 as int);
            assert(line.take(t1 - start) =~= bs.subrange(start as int, t1 as int));
            assert(line.subrange(t1 - start + 1, t2 - start) =~= bs.subrange(t1 + 1, t2 as int));
        }
        let text = self.0.text.as_str();
        let name = substr(text, start, t1);
        let version = substr(text, t1 + 1, t2);
        let e = Entry { name, version, rank };
        assert(e@.name =~= split_fields(line)[0]);
        assert(e@.version =~= split_fields(line)[1]);
        Some(e)
    }

    /// Number of crates in the artifact.
    pub fn len(&self) -> (r: usize)
        requires
            self.wf(),
        ensures
            r == self@.len(),
    {
        self.0.len()
    }

    /// Whether the artifact contains no crates.
    pub fn is_empty(&self) -> (r: bool)
        requires
            self.wf(),
        ensures
            r == (self@.len() == 0),
    {
        self.len() == 0
    }

    /// Name lookup, folded: case-insensitive, and `-` and `_` are the same
    /// character. `get("Tokio_Util")` finds `tokio-util`, because crates.io
    /// would not have let a second crate claim that name.
    pub fn get(&self, name: &str) -> (r: Option<Entry<'_>>)
        requires
            self.wf(),
        ensures
            match r {
                Some(e) => exists|i: int|
                    0 <= i < self@.len() && key_of(self@[i]) == fold(name.spec_bytes())
                        && e@ == entry_of(self@[i]),
                None => forall|i: int|
                    0 <= i < self@.len() ==> key_of(self@[i]) != fold(name.spec_bytes()),
            },
    {
        match self.0.find(name) {
            Some(index) => {
                let r = self.entry(index);
                assert(parse_entry(self@[index as int]) is Some);
                assert(key_of(self@[index as int]) == fold(name.spec_bytes()));
                assert(r->0@ == entry_of(self@[index as int]));
                r
            },
            None => {
                assert forall|i: int| 0 <= i < self@.len() implies key_of(self@[i]) != fold(
                    name.spec_bytes(),
                ) by {
                    assert(self.0.keys()[i] == key_of(self@[i]));
                }
                None
            },
        }
    }

    /// The entry at line `index` (0-based, in the artifact's folded-name sort
    /// order), or `None` if out of range. Paired with [`len`](Self::len) this
    /// is the stable handle a caller needs to build a side index that refers
    /// back into the artifact by position rather than copying names.
    pub fn entry_at(&self, index: usize) -> (r: Option<Entry<'_>>)
        requires
            self.wf(),
        ensures
            index < self@.len() ==> r is Some && r->0@ == entry_of(self@[index as int]),
            index >= self@.len() ==> r is None,
    {
        if index < self.len() {
            assert(parse_entry(self@[index as int]) is Some);
            self.entry(index)
        } else {
            None
        }
    }

    /// The half-open range of line indices whose folded name starts with
    /// `prefix` (folded as in [`get`](Self::get)) — the same range
    /// [`count`](Self::count) measures, exposed as positions so a caller can
    /// pair whole-name-prefix hits with [`entry_at`](Self::entry_at).
    pub fn prefix_indices(&self, prefix: &str) -> (r: Range<usize>)
        requires
            self.wf(),
        ensures
            r.start == count_below(keys_of(self@), fold(prefix.spec_bytes()), false),
            r.end == count_below(keys_of(self@), fold(prefix.spec_bytes()), true),
            r.start <= r.end <= self@.len(),
            forall|i: int|
                0 <= i < self@.len() ==> (r.start <= i < r.end <==> starts_with(
                    #[trigger] key_of(self@[i]),
                    fold(prefix.spec_bytes()),
                )),
    {
        let r = self.0.prefix_range(prefix);
        proof {
            lemma_prefix_block(keys_of(self@), fold(prefix.spec_bytes()));
            assert forall|i: int| 0 <= i < self@.len() implies (r.start <= i < r.end
                <==> starts_with(#[trigger] key_of(self@[i]), fold(prefix.spec_bytes()))) by {
                assert(keys_of(self@)[i] == key_of(self@[i]));
            }
        }
        r
    }

    /// How many crate names start with `prefix`, folded as in [`get`](Self::get).
    /// Two binary searches — no enumeration — so this is as cheap for `"s"`
    /// as for `"trillium-"`.
    pub fn count(&self, prefix: &str) -> (r: usize)
        requires
            self.wf(),
        ensures
            r == count_below(keys_of(self@), fold(prefix.spec_bytes()), true) - count_below(
                keys_of(self@),
                fold(prefix.spec_bytes()),
                false,
            ),
    {
        let range = self.0.prefix_range(prefix);
        range.end - range.start
    }

    /// All crates whose name starts with `prefix`, folded as in
    /// [`get`](Self::get), in artifact order.
    pub fn prefix(&self, prefix: &str) -> (r: Vec<Entry<'_>>)
        requires
            self.wf(),
        ensures
            views(r@) == prefix_entries(self@, fold(prefix.spec_bytes())),
    {
        let range = self.0.prefix_range(prefix);
        let ghost ls = self@;
        let mut out: Vec<Entry<'_>> = Vec::new();
        let mut i = range.start;
        while i < range.end
            invariant
                self.wf(),
                ls == self@,
                range.start <= i <= range.end <= ls.len(),
                views(out@) =~= ls.subrange(range.start as int, i as int).map_values(
                    |l: Seq<u8>| entry_of(l),
                ),
            decreases range.end - i,
        {
            assert(parse_entry(ls[i as int]) is Some);
            let ghost before_push = views(out@);
            if let Some(e) = self.entry(i) {
                out.push(e);
                assert(views(out@) =~= before_push.push(entry_of(ls[i as int])));
            }
            assert(ls.subrange(range.start as int, i + 1).map_values(|l: Seq<u8>| entry_of(l))
                =~= ls.subrange(range.start as int, i as int).map_values(|l: Seq<u8>| entry_of(l)).push(
                entry_of(ls[i as int]),
            ));
            i = i + 1;
        }
        out
    }

    /// The `limit` highest-ranked crates whose name starts with `prefix`
    /// (folded as in [`get`](Self::get)), ties broken by name.
    pub fn typeahead(&self, prefix: &str, limit: usize) -> (r: Vec<Entry<'_>>)
        requires
            self.wf(),
        ensures
            is_top(views(r@), prefix_entries(self@, fold(prefix.spec_bytes())), limit as int),
            forall|i: int, j: int|
                0 <= i < j < r@.len() ==> #[trigger] r@[i].rank > #[trigger] r@[j].rank || (
                r@[i].rank == r@[j].rank && lex_lt(r@[i]@.name, r@[j]@.name)),
    {
        let matches = self.prefix(prefix);
        proof {
            lemma_prefix_entries_distinct(self, fold(prefix.spec_bytes()));
        }
        let r = top_ranked(&matches, limit);
        proof {
            let v = views(r@);
            lemma_typeahead_order(v, prefix_entries(self@, fold(prefix.spec_bytes())), limit as int);
            assert forall|i: int, j: int| 0 <= i < j < r@.len() implies #[trigger] r@[i].rank
                > #[trigger] r@[j].rank || (r@[i].rank == r@[j].rank && lex_lt(
                r@[i]@.name,
                r@[j]@.name,
            )) by {
                assert(v[i] == r@[i]@);
                assert(v[j] == r@[j]@);
            }
        }
        r
    }
}

proof fn lemma_ranked_before_irreflexive(a: EntryView)
    ensures
        !ranked_before(a, a),
{
    lemma_lex_lt_irreflexive(a.name);
}

proof fn lemma_ranked_before_asymmetric(a: EntryView, b: EntryView)
    requires
        ranked_before(a, b),
    ensures
        !ranked_before(b, a),
{
    if a.rank == b.rank && lex_lt(a.name, b.name) {
        crate::order::lemma_lex_lt_asymmetric(a.name, b.name);
    }
}

/// No two entries have the same name.
pub open spec fn distinct_names(m: Seq<EntryView>) -> bool {
    forall|a: int, c: int|
        0 <= a < m.len() && 0 <= c < m.len() && a != c ==> #[trigger] m[a].name != #[trigger] m[c].name
}

/// The entries under a prefix of an accepted names artifact have distinct
/// names, so typeahead order ranks any two of them.
pub proof fn lemma_prefix_entries_distinct(n: &CrateNames, key: Seq<u8>)
    requires
        n.wf(),
    ensures
        distinct_names(prefix_entries(n@, key)),
{
    let ls = n@;
    let keys = keys_of(ls);
    let s = count_below(keys, key, false) as int;
    let m = prefix_entries(ls, key);
    lemma_prefix_block(keys, key);
    assert forall|a: int, c: int| 0 <= a < m.len() && 0 <= c < m.len() && a != c implies #[trigger] m[a].name
        != #[trigger] m[c].name by {
        crate::tsv::lemma_first_field_is_field_zero(ls[s + a]);
        crate::tsv::lemma_first_field_is_field_zero(ls[s + c]);
        assert(parse_entry(ls[s + a]) is Some);
        assert(parse_entry(ls[s + c]) is Some);
        assert(m[a].name == first_field(ls[s + a]));
        assert(m[c].name == first_field(ls[s + c]));
        if a < c {
            assert(lex_lt(keys[s + a], keys[s + c]));
            lemma_lex_lt_irreflexive(keys[s + a]);
        } else {
            assert(lex_lt(keys[s + c], keys[s + a]));
            lemma_lex_lt_irreflexive(keys[s + c]);
        }
    }
}

/// What typeahead keeps comes highest rank first and, among equal ranks, in
/// byte order of name (so `serde-aux` before `serde_a`, `-` being below
/// `_`); and a match it leaves out, when the limit was reached, ranks below
/// every kept entry in that same order.
pub proof fn lemma_typeahead_order(r: Seq<EntryView>, m: Seq<EntryView>, limit: int)
    requires
        is_top(r, m, limit),
    ensures
        forall|i: int, j: int|
            0 <= i < j < r.len() ==> #[trigger] r[i].rank > #[trigger] r[j].rank || (r[i].rank
                == r[j].rank && lex_lt(r[i].name, r[j].name)),
        forall|x: EntryView|
            m.contains(x) && !r.contains(x) ==> r.len() == limit && forall|i: int|
                0 <= i < r.len() ==> #[trigger] r[i].rank > x.rank || (r[i].rank == x.rank
                    && lex_lt(r[i].name, x.name)),
{
    assert forall|i: int, j: int| 0 <= i < j < r.len() implies #[trigger] r[i].rank
        > #[trigger] r[j].rank || (r[i].rank == r[j].rank && lex_lt(r[i].name, r[j].name)) by {
        assert(ranked_before(r[i], r[j]));
    }
    assert forall|x: EntryView| m.contains(x) && !r.contains(x) implies r.len() == limit
        && forall|i: int|
        0 <= i < r.len() ==> #[trigger] r[i].rank > x.rank || (r[i].rank == x.rank && lex_lt(
            r[i].name,
            x.name,
        )) by {
        let p = choose|p: int| 0 <= p < m.len() && m[p] == x;
        assert(r.contains(m[p]) || (r.len() == limit && forall|k: int|
            0 <= k < r.len() ==> ranked_before(#[trigger] r[k], m[p])));
        assert forall|i: int| 0 <= i < r.len() implies #[trigger] r[i].rank > x.rank || (r[i].rank
            == x.rank && lex_lt(r[i].name, x.name)) by {
            assert(ranked_before(r[i], m[p]));
        }
    }
}

proof fn lemma_top_agree(
    r1: Seq<EntryView>,
    r2: Seq<EntryView>,
    m: Seq<EntryView>,
    k1: int,
    k2: int,
    i: int,
)
    requires
        is_top(r1, m, k1),
        is_top(r2, m, k2),
        0 <= k1 <= k2,
        distinct_names(m),
        0 <= i < r1.len(),
    ensures
        forall|j: int| 0 <= j <= i ==> r1[j] == r2[j],
    decreases i,
{
    if i > 0 {
        lemma_top_agree(r1, r2, m, k1, k2, i - 1);
    }
    let x = r1[i];
    let y = r2[i];
    if x != y {
        assert(m.contains(x));
        assert(m.contains(y));
        let px = choose|p: int| 0 <= p < m.len() && m[p] == x;
        let py = choose|p: int| 0 <= p < m.len() && m[p] == y;
        assert(px != py);
        assert(x.name != y.name);
        lemma_ranked_before_total(x, y);
        if ranked_before(x, y) {
            lemma_ranked_before_asymmetric(x, y);
            if r2.contains(m[px]) {
                let p = choose|p: int| 0 <= p < r2.len() && r2[p] == x;
                if p < i {
                    assert(r1[p] == r2[p]);
                    assert(ranked_before(r1[p], r1[i]));
                    lemma_ranked_before_irreflexive(x);
                } else {
                    assert(p != i);
                    assert(ranked_before(r2[i], r2[p]));
                }
            } else {
                assert(ranked_before(r2[i], m[px]));
            }
        } else {
            lemma_ranked_before_asymmetric(y, x);
            if r1.contains(m[py]) {
                let p = choose|p: int| 0 <= p < r1.len() && r1[p] == y;
                if p < i {
                    assert(r1[p] == r2[p]);
                    assert(ranked_before(r2[p], r2[i]));
                    lemma_ranked_before_irreflexive(y);
                } else {
                    assert(p != i);
                    assert(ranked_before(r1[i], r1[p]));
                }
            } else {
                assert(ranked_before(r1[i], m[py]));
            }
        }
    }
}

/// A smaller typeahead limit gives a prefix of what a larger one gives.
pub proof fn lemma_typeahead_limits(
    r1: Seq<EntryView>,
    r2: Seq<EntryView>,
    m: Seq<EntryView>,
    k1: int,
    k2: int,
)
    requires
        is_top(r1, m, k1),
        is_top(r2, m, k2),
        0 <= k1 <= k2,
        distinct_names(m),
    ensures
        r1.len() == if k1 < m.len() {
            k1
        } else {
            m.len() as int
        },
        r1 =~= r2.take(r1.len() as int),
{
    if r1.len() > 0 {
        lemma_top_agree(r1, r2, m, k1, k2, r1.len() - 1);
    }
}

/// With a limit no smaller than the number of matches, typeahead gives
/// every match, each once.
pub proof fn lemma_typeahead_all(r: Seq<EntryView>, m: Seq<EntryView>, k: int)
    requires
        is_top(r, m, k),
        k >= m.len(),
        distinct_names(m),
    ensures
        r.len() == m.len(),
        r.no_duplicates(),
        forall|x: EntryView| r.contains(x) <==> m.contains(x),
{
    broadcast use vstd::set::group_set_axioms, vstd::seq_lib::seq_to_set_is_finite;

    assert forall|i: int, j: int| 0 <= i < r.len() && 0 <= j < r.len() && i != j implies r[i]
        != r[j] by {
        if r[i] == r[j] {
            if i < j {
                assert(ranked_before(r[i], r[j]));
            } else {
                assert(ranked_before(r[j], r[i]));
            }
            lemma_ranked_before_irreflexive(r[i]);
        }
    }
    r.unique_seq_to_set();
    m.lemma_cardinality_of_set();
    assert(r.to_set().subset_of(m.to_set())) by {
        assert forall|x: EntryView| r.to_set().contains(x) implies m.to_set().contains(x) by {
            let i = choose|i: int| 0 <= i < r.len() && r[i] == x;
            assert(m.contains(r[i]));
        }
    }
    vstd::set_lib::lemma_len_subset(r.to_set(), m.to_set());
    vstd::set_lib::lemma_subset_equality(r.to_set(), m.to_set());
    assert forall|x: EntryView| r.contains(x) <==> m.contains(x) by {
        assert(r.to_set().contains(x) == m.to_set().contains(x));
    }
}

proof fn lemma_ranked_before_transitive(a: EntryView, b: EntryView, c: EntryView)
    requires
        ranked_before(a, b),
        ranked_before(b, c),
    ensures
        ranked_before(a, c),
{
    if a.rank == b.rank && b.rank == c.rank {
        lemma_lex_lt_transitive(a.name, b.name, c.name);
    }
}

proof fn lemma_ranked_before_total(a: EntryView, b: EntryView)
    requires
        a.name != b.name,
    ensures
        ranked_before(a, b) || ranked_before(b, a),
{
    crate::order::lemma_lex_lt_total(a.name, b.name);
}

/// Whether `a` comes before `b` in typeahead order.
fn ranked_before_exec(a: &Entry, b: &Entry) -> (r: bool)
    ensures
        r == ranked_before(a@, b@),
{
    a.rank > b.rank || (a.rank == b.rank && crate::order::bytes_less(
        a.name.as_bytes(),
        b.name.as_bytes(),
    ))
}

/// The `limit` best of `matches` in typeahead order, best first. Keeps the
/// best ones seen so far in order and inserts each match where it belongs.
#[verifier::spinoff_prover]
#[verifier::rlimit(40)]
fn top_ranked<'a>(matches: &Vec<Entry<'a>>, limit: usize) -> (r: Vec<Entry<'a>>)
    requires
        forall|a: int, c: int|
            0 <= a < matches@.len() && 0 <= c < matches@.len() && a != c ==> #[trigger] views(
                matches@,
            )[a].name != #[trigger] views(matches@)[c].name,
    ensures
        is_top(views(r@), views(matches@), limit as int),
{
    let ghost m = views(matches@);
    let mut top: Vec<Entry<'a>> = Vec::new();
    let ghost mut src: Seq<int> = seq![];
    let mut j: usize = 0;
    while j < matches.len()
        invariant
            m == views(matches@),
            forall|a: int, c: int|
                0 <= a < m.len() && 0 <= c < m.len() && a != c ==> #[trigger] m[a].name
                    != #[trigger] m[c].name,
            j <= m.len(),
            top@.len() == if (limit as int) < j {
                limit as int
            } else {
                j as int
            },
            src.len() == top@.len(),
            forall|k: int| 0 <= k < top@.len() ==> 0 <= #[trigger] src[k] < j && views(top@)[k] == m[src[k]],
            forall|a: int, c: int|
                0 <= a < c < top@.len() ==> ranked_before(
                    #[trigger] views(top@)[a],
                    #[trigger] views(top@)[c],
                ),
            forall|i: int|
                0 <= i < j ==> views(top@).contains(#[trigger] m[i]) || (top@.len() == limit
                    && forall|k: int|
                    0 <= k < top@.len() ==> ranked_before(#[trigger] views(top@)[k], m[i])),
        decreases m.len() - j,
    {
        let x = matches[j];
        let ghost tv = views(top@);
        let ghost old_src = src;
        let mut p: usize = 0;
        while p < top.len() && ranked_before_exec(&top[p], &x)
            invariant
                tv == views(top@),
                p <= top@.len(),
                forall|k: int| 0 <= k < p ==> ranked_before(#[trigger] tv[k], x@),
            decreases top@.len() - p,
        {
            p = p + 1;
        }
        proof {
            assert(x@ == m[j as int]);
            assert forall|k: int| p <= k < tv.len() implies ranked_before(x@, #[trigger] tv[k]) by {
                assert(tv[p as int].name != x@.name) by {
                    assert(tv[p as int] == m[src[p as int]]);
                }
                if !ranked_before(tv[p as int], x@) {
                    lemma_ranked_before_total(tv[p as int], x@);
                }
                if k > p {
                    lemma_ranked_before_transitive(x@, tv[p as int], tv[k]);
                }
            }
        }
        if p < limit {
            top.insert(p, x);
            proof {
                src = src.insert(p as int, j as int);
            }
            let ghost nv = views(top@);
            proof {
                assert(nv =~= tv.insert(p as int, x@));
            }
            if top.len() > limit {
                top.pop();
                proof {
                    src = src.drop_last();
                }
            }
            proof {
                let fv = views(top@);
                assert(fv =~= nv.take(fv.len() as int));
                assert forall|k: int| 0 <= k < fv.len() implies 0 <= #[trigger] src[k] < j + 1
                    && fv[k] == m[src[k]] by {
                    if k < p {
                        assert(src[k] == old_src[k]);
                    } else if k > p {
                        assert(src[k] == old_src[k - 1]);
                    }
                }
                assert forall|a: int, c: int| 0 <= a < c < fv.len() implies ranked_before(
                    #[trigger] fv[a],
                    #[trigger] fv[c],
                ) by {
                    if c < p {
                    } else if a < p && c == p {
                    } else if a == p {
                        assert(fv[c] == tv[c - 1]);
                    } else if a < p {
                        assert(fv[c] == tv[c - 1]);
                    } else {
                        assert(fv[a] == tv[a - 1]);
                        assert(fv[c] == tv[c - 1]);
                    }
                }
                assert forall|i: int| 0 <= i < j + 1 implies fv.contains(#[trigger] m[i]) || (
                fv.len() == limit && forall|k: int|
                    0 <= k < fv.len() ==> ranked_before(#[trigger] fv[k], m[i])) by {
                    if i == j {
                        assert(fv[p as int] == m[i]);
                    } else if tv.contains(m[i]) {
                        let k0 = choose|k0: int| 0 <= k0 < tv.len() && tv[k0] == m[i];
                        let k1 = if k0 < p {
                            k0
                        } else {
                            k0 + 1
                        };
                        assert(nv[k1] == m[i]);
                        if k1 < fv.len() {
                            assert(fv[k1] == m[i]);
                        } else {
                            assert forall|k: int| 0 <= k < fv.len() implies ranked_before(
                                #[trigger] fv[k],
                                m[i],
                            ) by {
                                assert(fv[k] == nv[k]);
                            }
                        }
                    } else {
                        assert forall|k: int| 0 <= k < fv.len() implies ranked_before(
                            #[trigger] fv[k],
                            m[i],
                        ) by {
                            if k < p {
                                assert(fv[k] == tv[k]);
                            } else if k == p {
                                assert(ranked_before(tv[p as int], m[i]));
                                lemma_ranked_before_transitive(x@, tv[p as int], m[i]);
                            } else {
                                assert(fv[k] == tv[k - 1]);
                            }
                        }
                    }
                }
            }
        } else {
            proof {
                assert forall|i: int| 0 <= i < j + 1 implies tv.contains(#[trigger] m[i]) || (
                tv.len() == limit && forall|k: int|
                    0 <= k < tv.len() ==> ranked_before(#[trigger] tv[k], m[i])) by {
                    if i == j {
                        assert forall|k: int| 0 <= k < tv.len() implies ranked_before(
                            #[trigger] tv[k],
                            m[i],
                        ) by {
                            assert(k < p);
                        }
                    }
                }
            }
        }
        j = j + 1;
    }
    proof {
        let tv = views(top@);
        assert forall|i: int| 0 <= i < tv.len() implies m.contains(#[trigger] tv[i]) by {
            assert(tv[i] == m[src[i]]);
        }
    }
    top
}

/// The byte views of `(name, description)` pairs.
pub open spec fn pair_views<'a>(v: Seq<(&'a str, &'a str)>) -> Seq<(Seq<u8>, Seq<u8>)> {
    v.map_values(|p: (&'a str, &'a str)| (p.0.spec_bytes(), p.1.spec_bytes()))
}

/// Reader for the descriptions artifact (`descriptions-v1.tsv.zst`).
#[derive(Debug)]
pub struct Descriptions(SortedTsv);

impl View for Descriptions {
    type V = Seq<Seq<u8>>;

    /// The lines of the artifact, without their `\n`.
    closed spec fn view(&self) -> Seq<Seq<u8>> {
        self.0.lines()
    }
}

impl Descriptions {
    /// Sorted and unique by folded name.
    pub closed spec fn wf(&self) -> bool {
        self.0.wf()
    }

    /// Parse a zstd-compressed descriptions artifact.
    pub fn from_zstd(bytes: &[u8]) -> (r: Result<Self, Error>)
        ensures
            match r {
                Ok(d) => {
                    &&& d.wf()
                    &&& compressed_rejection(bytes@, false) is None
                    &&& d@ == split_lines(zstd_decoded(bytes@)->0)
                },
                Err(e) => compressed_rejection(bytes@, false) == Some(e.rejection()),
            },
    {
        match SortedTsv::from_zstd(bytes) {
            Ok(tsv) => Ok(Self(tsv)),
            Err(e) => Err(e),
        }
    }

    /// Parse a decompressed descriptions artifact that is still to be checked as UTF-8.
    pub fn from_decompressed(bytes: Vec<u8>) -> (r: Result<Self, Error>)
        ensures
            match r {
                Ok(d) => {
                    &&& d.wf()
                    &&& bytes_rejection(bytes@, false) is None
                    &&& d@ == split_lines(bytes@)
                },
                Err(e) => bytes_rejection(bytes@, false) == Some(e.rejection()),
            },
    {
        match SortedTsv::from_decompressed(bytes) {
            Ok(tsv) => Ok(Self(tsv)),
            Err(e) => Err(e),
        }
    }

    /// Parse an already-decompressed descriptions artifact.
    pub fn from_tsv(text: String) -> (r: Result<Self, Error>)
        ensures
            match r {
                Ok(d) => {
                    &&& d.wf()
                    &&& text_rejection(encode_utf8(text@), false) is None
                    &&& d@ == split_lines(encode_utf8(text@))
                },
                Err(e) => text_rejection(encode_utf8(text@), false) == Some(e.rejection()),
            },
    {
        match SortedTsv::from_text(text) {
            Ok(tsv) => Ok(Self(tsv)),
            Err(e) => Err(e),
        }
    }

    /// Number of crates in the artifact.
    pub fn len(&self) -> (r: usize)
        requires
            self.wf(),
        ensures
            r == self@.len(),
    {
        self.0.len()
    }

    /// Whether the artifact contains no crates.
    pub fn is_empty(&self) -> (r: bool)
        requires
            self.wf(),
        ensures
            r == (self@.len() == 0),
    {
        self.len() == 0
    }

    /// The description for `name`, if that crate has one. Folded, as in
    /// [`CrateNames::get`].
    pub fn get(&self, name: &str) -> (r: Option<&str>)
        requires
            self.wf(),
        ensures
            match r {
                Some(d) => exists|i: int|
                    0 <= i < self@.len() && key_of(self@[i]) == fold(name.spec_bytes()) && (
                    split_once_tab(self@[i]) matches Some(p) && d.spec_bytes() == p.1),
                None => forall|i: int|
                    0 <= i < self@.len() && key_of(self@[i]) == fold(name.spec_bytes())
                        ==> split_once_tab(self@[i]) is None,
            },
    {
        match self.0.find(name) {
            Some(index) => {
                assert(key_of(self@[index as int]) == fold(name.spec_bytes()));
                match self.0.split_line(index) {
                    Some((_, description)) => Some(description),
                    None => {
                        assert forall|i: int|
                            0 <= i < self@.len() && key_of(self@[i]) == fold(
                                name.spec_bytes(),
                            ) implies split_once_tab(self@[i]) is None by {
                            assert(self.0.keys()[i] == key_of(self@[i]));
                            if i != index {
                                if i < index {
                                    assert(lex_lt(self.0.keys()[i], self.0.keys()[index as int]));
                                } else {
                                    assert(lex_lt(self.0.keys()[index as int], self.0.keys()[i]));
                                }
                                lemma_lex_lt_irreflexive(key_of(self@[i]));
                            }
                        }
                        None
                    },
                }
            },
            None => {
                assert forall|i: int|
                    0 <= i < self@.len() && key_of(self@[i]) == fold(name.spec_bytes())
                        implies split_once_tab(self@[i]) is None by {
                    assert(self.0.keys()[i] == key_of(self@[i]));
                }
                None
            },
        }
    }

    /// All `(name, description)` pairs, in artifact order.
    pub fn iter(&self) -> (r: Vec<(&str, &str)>)
        requires
            self.wf(),
        ensures
            pair_views(r@) == description_pairs(self@),
    {
        let ghost ls = self@;
        let len = self.len();
        let mut out: Vec<(&str, &str)> = Vec::new();
        let mut i: usize = 0;
        while i < len
            invariant
                self.wf(),
                ls == self@,
                len == ls.len(),
                i <= len,
                pair_views(out@) =~= description_pairs(ls.take(i as int)),
            decreases len - i,
        {
            let ghost before_push = pair_views(out@);
            assert(ls.take(i + 1).drop_last() =~= ls.take(i as int));
            assert(ls.take(i + 1).last() == ls[i as int]);
            if let Some(pair) = self.0.split_line(i) {
                out.push(pair);
                assert(pair_views(out@) =~= before_push.push((pair.0.spec_bytes(), pair.1.spec_bytes())));
            }
            i = i + 1;
        }
        assert(ls.take(len as int) =~= ls);
        out
    }
}

/// In an accepted artifact the lines are sorted and unique by folded name:
/// every line's key sorts strictly below every later line's key.
pub proof fn lemma_names_sorted_unique(n: &CrateNames)
    requires
        n.wf(),
    ensures
        strictly_sorted(keys_of(n@)),
{
}

/// Every line of an accepted names artifact reads as an entry.
pub proof fn lemma_names_all_entries(n: &CrateNames, i: int)
    requires
        n.wf(),
        0 <= i < n@.len(),
    ensures
        parse_entry(n@[i]) is Some,
{
}

/// At most one line of an accepted artifact has a given folded name, so a
/// folded lookup has at most one answer.
pub proof fn lemma_one_line_per_key(lines: Seq<Seq<u8>>, i: int, j: int)
    requires
        strictly_sorted(keys_of(lines)),
        0 <= i < lines.len(),
        0 <= j < lines.len(),
        key_of(lines[i]) == key_of(lines[j]),
    ensures
        i == j,
{
    let keys = keys_of(lines);
    assert(keys[i] == key_of(lines[i]));
    assert(keys[j] == key_of(lines[j]));
    if i < j {
        lemma_lex_lt_irreflexive(keys[i]);
    } else if j < i {
        lemma_lex_lt_irreflexive(keys[j]);
    }
}

/// Looking up an entry's own name, in any spelling that folds the same,
/// finds that entry's line.
pub proof fn lemma_entry_name_is_key(line: Seq<u8>, spelling: Seq<u8>)
    requires
        parse_entry(line) is Some,
        fold(spelling) == fold(entry_of(line).name),
    ensures
        key_of(line) == fold(spelling),
{
    crate::tsv::lemma_first_field_is_field_zero(line);
}

/// The three prefix queries agree: `prefix` yields as many entries as
/// `count` counts and `prefix_indices` spans, and its `k`-th entry is the
/// entry at position `prefix_indices.start + k`.
pub proof fn lemma_prefix_queries_agree(lines: Seq<Seq<u8>>, key: Seq<u8>)
    requires
        strictly_sorted(keys_of(lines)),
    ensures
        prefix_entries(lines, key).len() == count_below(keys_of(lines), key, true) - count_below(
            keys_of(lines),
            key,
            false,
        ),
        forall|k: int|
            0 <= k < prefix_entries(lines, key).len() ==> #[trigger] prefix_entries(lines, key)[k]
                == entry_of(lines[count_below(keys_of(lines), key, false) + k]),
{
    lemma_prefix_block(keys_of(lines), key);
}

/// In an accepted descriptions artifact the lines are sorted and unique by folded name.
pub proof fn lemma_descriptions_sorted_unique(d: &Descriptions)
    requires
        d.wf(),
    ensures
        strictly_sorted(keys_of(d@)),
{
}

/// A number written in decimal reads back as that number.
pub proof fn lemma_decimal_text_reads_back(n: nat)
    requires
        n <= u64::MAX,
    ensures
        parse_u64(decimal_text(n)) == Some(n as u64),
{
    lemma_decimal_text_value(n);
}

proof fn lemma_decimal_text_value(n: nat)
    ensures
        decimal_text(n).len() > 0,
        crate::tsv::all_digits(decimal_text(n)),
        crate::tsv::digits_value(decimal_text(n)) == n,
    decreases n,
{
    let d = decimal_text(n);
    if n < 10 {
        assert(d.drop_last() =~= Seq::<u8>::empty());
        assert(crate::tsv::is_digit(d[0]));
        assert(crate::tsv::digits_value(Seq::<u8>::empty()) == 0);
        assert(d.last() == (0x30 + n) as u8);
        assert((d.last() - 0x30) as nat == n);
    } else {
        lemma_decimal_text_value(n / 10);
        let before = decimal_text(n / 10);
        assert(d.drop_last() =~= before);
        assert(d.last() == (0x30 + n % 10) as u8);
        assert((d.last() - 0x30) as nat == n % 10);
        assert((n / 10) * 10 + n % 10 == n);
        assert forall|i: int| 0 <= i < d.len() implies crate::tsv::is_digit(#[trigger] d[i]) by {
            if i < before.len() {
                assert(d[i] == before[i]);
            }
        }
    }
}

} // verus!
