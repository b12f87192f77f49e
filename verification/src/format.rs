//! Constants and pure functions that define the wire format. Builder and
//! reader both depend on this module, so the format has a single source of
//! truth.
use crate::decode::string_from_utf8;
use crate::order::{fold, fold_bytes};
use crate::text::{
    lemma_boundary_after_scalar, lemma_encode_utf8_concat, lemma_fold_valid_utf8, substr,
};
use vstd::prelude::*;
use vstd::string::{StringExecFns, StringSliceAdditionalSpecFns};
use vstd::utf8::{
    encode_scalar, encode_utf8, is_char_boundary, is_char_boundary_iff_not_is_continuation_byte,
    is_continuation_byte, length_of_first_scalar, valid_utf8,
};

verus! {

broadcast use vstd::utf8::group_utf8_lib;

/// Artifact file name for the names/versions/ranks table.
pub const NAMES_FILE_V1: &'static str = "names-v1.tsv.zst";

/// Artifact file name for the descriptions table.
pub const DESCRIPTIONS_FILE_V1: &'static str = "descriptions-v1.tsv.zst";

/// Artifact file name for the names/versions/ranks table, folded order.
pub const NAMES_FILE_V2: &'static str = "names-v2.tsv.zst";

/// Artifact file name for the descriptions table, folded order.
pub const DESCRIPTIONS_FILE_V2: &'static str = "descriptions-v2.tsv.zst";

/// Stable download location of the names artifact.
pub const NAMES_URL_V2: &'static str = "https://github.com/jbr/crate-names/releases/download/artifacts/names-v2.tsv.zst";

/// Stable download location of the descriptions artifact.
pub const DESCRIPTIONS_URL_V2: &'static str = "https://github.com/jbr/crate-names/releases/download/artifacts/descriptions-v2.tsv.zst";

/// The folded form of a name, as artifacts are sorted and looked up by:
/// ASCII letters lowercased and `-` replaced by `_`; every other character
/// is kept.
pub fn normalize(name: &str) -> (r: String)
    ensures
        encode_utf8(r@) == fold(name.spec_bytes()),
{
    let folded = fold_bytes(name.as_bytes());
    proof {
        lemma_fold_valid_utf8(name.spec_bytes());
    }
    match string_from_utf8(folded) {
        Ok(s) => s,
        Err(_) => {
            assert(false);
            String::new()
        },
    }
}

/// Length of the UTF-8 encoding of a `White_Space` character at the start
/// of `s` (`\t`, `\n`, `\x0B`, `\x0C`, `\r`, space, U+0085, U+00A0,
/// U+1680, U+2000..=U+200A, U+2028, U+2029, U+202F, U+205F, U+3000), or 0
/// when `s` does not start with one.
pub open spec fn white_space_len(s: Seq<u8>) -> nat {
    if s.len() >= 1 && (s[0] == 0x20 || 0x09 <= s[0] <= 0x0d) {
        1
    } else if s.len() >= 2 && s[0] == 0xc2 && (s[1] == 0x85 || s[1] == 0xa0) {
        2
    } else if s.len() >= 3 && s[0] == 0xe1 && s[1] == 0x9a && s[2] == 0x80 {
        3
    } else if s.len() >= 3 && s[0] == 0xe2 && s[1] == 0x80 && (0x80 <= s[2] <= 0x8a || s[2]
        == 0xa8 || s[2] == 0xa9 || s[2] == 0xaf) {
        3
    } else if s.len() >= 3 && s[0] == 0xe2 && s[1] == 0x81 && s[2] == 0x9f {
        3
    } else if s.len() >= 3 && s[0] == 0xe3 && s[1] == 0x80 && s[2] == 0x80 {
        3
    } else {
        0
    }
}

/// Bytes before the first white space character in `s`.
pub open spec fn word_len(s: Seq<u8>) -> nat
    decreases s.len(),
{
    if s.len() == 0 || white_space_len(s) > 0 {
        0
    } else {
        1 + word_len(s.drop_first())
    }
}

pub proof fn lemma_word_len(s: Seq<u8>)
    ensures
        word_len(s) <= s.len(),
        s.len() > 0 && white_space_len(s) == 0 ==> word_len(s) >= 1,
    decreases s.len(),
{
    if s.len() > 0 && white_space_len(s) == 0 {
        lemma_word_len(s.drop_first());
    }
}

/// The maximal runs of characters between white space, in order
/// (`str::split_whitespace`).
pub open spec fn words(s: Seq<u8>) -> Seq<Seq<u8>>
    decreases s.len(),
{
    if s.len() == 0 {
        seq![]
    } else if white_space_len(s) > 0 {
        words(s.skip(white_space_len(s) as int))
    } else {
        let n = word_len(s);
        proof {
            lemma_word_len(s);
        }
        seq![s.take(n as int)] + words(s.skip(n as int))
    }
}

/// Words joined by single spaces.
pub open spec fn join_words(ws: Seq<Seq<u8>>) -> Seq<u8>
    decreases ws.len(),
{
    if ws.len() == 0 {
        seq![]
    } else if ws.len() == 1 {
        ws[0]
    } else {
        join_words(ws.drop_last()) + seq![0x20u8] + ws.last()
    }
}

/// `white_space_len` of the bytes from `i` on.
fn white_space_len_at(b: &[u8], i: usize) -> (r: usize)
    requires
        i < b@.len(),
    ensures
        r == white_space_len(b@.skip(i as int)),
{
    let n = b.len();
    let c = b[i];
    if c == 0x20 || (0x09 <= c && c <= 0x0d) {
        1
    } else if n - i >= 2 && c == 0xc2 && (b[i + 1] == 0x85 || b[i + 1] == 0xa0) {
        2
    } else if n - i >= 3 && c == 0xe1 && b[i + 1] == 0x9a && b[i + 2] == 0x80 {
        3
    } else if n - i >= 3 && c == 0xe2 && b[i + 1] == 0x80 && ((0x80 <= b[i + 2] && b[i + 2]
        <= 0x8a) || b[i + 2] == 0xa8 || b[i + 2] == 0xa9 || b[i + 2] == 0xaf) {
        3
    } else if n - i >= 3 && c == 0xe2 && b[i + 1] == 0x81 && b[i + 2] == 0x9f {
        3
    } else if n - i >= 3 && c == 0xe3 && b[i + 1] == 0x80 && b[i + 2] == 0x80 {
        3
    } else {
        0
    }
}

proof fn lemma_word_len_scan(s: Seq<u8>, n: int)
    requires
        0 <= n <= s.len(),
        forall|k: int| 0 <= k < n ==> white_space_len(#[trigger] s.skip(k)) == 0,
        n == s.len() || white_space_len(s.skip(n)) > 0,
    ensures
        word_len(s) == n,
    decreases n,
{
    assert(s.skip(0) =~= s);
    if n > 0 {
        assert forall|k: int| 0 <= k < n - 1 implies white_space_len(
            #[trigger] s.drop_first().skip(k),
        ) == 0 by {
            assert(s.drop_first().skip(k) =~= s.skip(k + 1));
        }
        assert(s.drop_first().skip(n - 1) =~= s.skip(n));
        lemma_word_len_scan(s.drop_first(), n - 1);
    }
}

/// Collapse all whitespace runs (including newlines and tabs) to single
/// spaces so descriptions fit in one TSV field.
pub fn flatten_whitespace(s: &str) -> (r: String)
    ensures
        encode_utf8(r@) == join_words(words(s.spec_bytes())),
{
    let b = s.as_bytes();
    let ghost bs = b@;
    let n = b.len();
    let mut out = String::new();
    let mut first = true;
    let mut i: usize = 0;
    let ghost mut done: Seq<Seq<u8>> = seq![];
    proof {
        assert(bs.skip(0) =~= bs);
        reveal_strlit(" ");
        assert(" "@ =~= seq![' ']);
        assert(encode_utf8(seq![' ']) =~= seq![0x20u8]) by {
            assert((' ' as u32) == 0x20u32);
            assert((0x20u32 & 0x7F) as u8 == 0x20u8) by (bit_vector);
            assert(encode_scalar(0x20u32) =~= seq![0x20u8]);
            assert(seq![' '].drop_first() =~= Seq::<char>::empty());
            reveal_with_fuel(encode_utf8, 2);
        }
    }
    while i < n
        invariant
            b@ == bs,
            bs == s.spec_bytes(),
            n == bs.len(),
            valid_utf8(bs),
            i <= n,
            is_char_boundary(bs, i as int),
            words(bs) =~= done + words(bs.skip(i as int)),
            encode_utf8(out@) =~= join_words(done),
            first == (done.len() == 0),
            " "@ =~= seq![' '],
            encode_utf8(seq![' ']) =~= seq![0x20u8],
        decreases n - i,
    {
        let w = white_space_len_at(b, i);
        if w > 0 {
            proof {
                lemma_boundary_after_scalar(bs, i as int);
                assert(length_of_first_scalar(bs.skip(i as int)) == w);
                assert(bs.skip(i as int).skip(w as int) =~= bs.skip(i + w));
            }
            i = i + w;
        } else {
            let mut j = i + 1;
            proof {
                assert(bs.skip(i as int).skip(0) =~= bs.skip(i as int));
            }
            while j < n && white_space_len_at(b, j) == 0
                invariant
                    b@ == bs,
                    n == bs.len(),
                    i < j <= n,
                    forall|k: int| i <= k < j ==> white_space_len(#[trigger] bs.skip(k)) == 0,
                decreases n - j,
            {
                j = j + 1;
            }
            proof {
                let t = bs.skip(i as int);
                assert forall|k: int| 0 <= k < j - i implies white_space_len(#[trigger] t.skip(k))
                    == 0 by {
                    assert(t.skip(k) =~= bs.skip(i + k));
                }
                assert(t.skip(j - i) =~= bs.skip(j as int));
                lemma_word_len_scan(t, j - i);
                assert(t.take(j - i) =~= bs.subrange(i as int, j as int));
                if j < n {
                    is_char_boundary_iff_not_is_continuation_byte(bs, j as int);
                    assert(bs.skip(j as int)[0] == bs[j as int]);
                    assert(!is_continuation_byte(bs[j as int]));
                }
            }
            let word = substr(s, i, j);
            let ghost before = out@;
            if !first {
                out.append(" ");
                proof {
                    lemma_encode_utf8_concat(before, " "@);
                }
            }
            let ghost middle = out@;
            out.append(word);
            proof {
                lemma_encode_utf8_concat(middle, word@);
                let w0 = bs.subrange(i as int, j as int);
                assert(word.spec_bytes() == w0);
                let nd = done.push(w0);
                assert(nd.drop_last() =~= done);
                assert(words(bs) =~= nd + words(bs.skip(j as int)));
                if done.len() == 0 {
                    assert(join_words(nd) =~= w0);
                }
                done = nd;
            }
            first = false;
            i = j;
        }
    }
    proof {
        assert(bs.skip(n as int) =~= Seq::<u8>::empty());
        assert(done + Seq::<Seq<u8>>::empty() =~= done);
    }
    out
}

/// An ASCII white space byte: tab, line feed, vertical tab, form feed,
/// carriage return or space.
pub open spec fn is_ascii_white_space(b: u8) -> bool {
    b == 0x20 || 0x09 <= b <= 0x0d
}

/// Text fits one TSV field of a line: its only ASCII white space is single
/// spaces between other bytes (so no tab and no line break).
pub open spec fn single_spaced(t: Seq<u8>) -> bool {
    &&& forall|k: int| 0 <= k < t.len() && is_ascii_white_space(#[trigger] t[k]) ==> t[k] == 0x20
    &&& t.len() > 0 ==> !is_ascii_white_space(t[0]) && !is_ascii_white_space(t.last())
    &&& forall|k: int|
        0 <= k < t.len() - 1 && #[trigger] is_ascii_white_space(t[k]) ==> !is_ascii_white_space(
            t[k + 1],
        )
}

proof fn lemma_word_has_no_ascii_white_space(s: Seq<u8>, k: int)
    requires
        0 <= k < word_len(s),
    ensures
        !is_ascii_white_space(s[k]),
    decreases k,
{
    lemma_word_len(s);
    assert(s.len() > 0 && white_space_len(s) == 0);
    assert(word_len(s) == 1 + word_len(s.drop_first()));
    if k > 0 {
        lemma_word_has_no_ascii_white_space(s.drop_first(), k - 1);
        assert(s.drop_first()[k - 1] == s[k]);
    }
}

/// Every word is nonempty and holds no ASCII white space.
proof fn lemma_words_are_words(s: Seq<u8>)
    ensures
        forall|i: int|
            0 <= i < words(s).len() ==> (#[trigger] words(s)[i]).len() > 0 && forall|k: int|
                0 <= k < words(s)[i].len() ==> !is_ascii_white_space(#[trigger] words(s)[i][k]),
    decreases s.len(),
{
    if s.len() > 0 {
        if white_space_len(s) > 0 {
            lemma_words_are_words(s.skip(white_space_len(s) as int));
            assert(words(s) == words(s.skip(white_space_len(s) as int)));
        } else {
            let n = word_len(s);
            lemma_word_len(s);
            lemma_words_are_words(s.skip(n as int));
            let ws = words(s);
            assert(ws == seq![s.take(n as int)] + words(s.skip(n as int)));
            assert forall|i: int| 0 <= i < ws.len() implies (#[trigger] ws[i]).len() > 0
                && forall|k: int| 0 <= k < ws[i].len() ==> !is_ascii_white_space(#[trigger] ws[i][k]) by {
                if i == 0 {
                    assert(ws[0] == s.take(n as int));
                    assert forall|k: int| 0 <= k < ws[0].len() implies !is_ascii_white_space(
                        #[trigger] ws[0][k],
                    ) by {
                        lemma_word_has_no_ascii_white_space(s, k);
                    }
                } else {
                    assert(ws[i] == words(s.skip(n as int))[i - 1]);
                }
            }
        }
    }
}

proof fn lemma_join_single_spaced(ws: Seq<Seq<u8>>)
    requires
        forall|i: int|
            0 <= i < ws.len() ==> (#[trigger] ws[i]).len() > 0 && forall|k: int|
                0 <= k < ws[i].len() ==> !is_ascii_white_space(#[trigger] ws[i][k]),
    ensures
        single_spaced(join_words(ws)),
        ws.len() > 0 ==> join_words(ws).len() > 0,
    decreases ws.len(),
{
    if ws.len() >= 2 {
        let init = ws.drop_last();
        assert forall|i: int| 0 <= i < init.len() implies (#[trigger] init[i]).len() > 0
            && forall|k: int| 0 <= k < init[i].len() ==> !is_ascii_white_space(#[trigger] init[i][k]) by {
            assert(init[i] == ws[i]);
        }
        lemma_join_single_spaced(init);
        let a = join_words(init);
        let w = ws.last();
        assert(w == ws[ws.len() - 1]);
        let t = join_words(ws);
        assert(t =~= a + seq![0x20u8] + w);
        assert(forall|k: int| 0 <= k < w.len() ==> !is_ascii_white_space(#[trigger] w[k]));
        assert forall|k: int| 0 <= k < t.len() && is_ascii_white_space(#[trigger] t[k]) implies t[k]
            == 0x20 by {
            if k > a.len() {
                assert(t[k] == w[k - a.len() - 1]);
            }
        }
        assert forall|k: int| 0 <= k < t.len() - 1 && #[trigger] is_ascii_white_space(t[k]) implies !is_ascii_white_space(
            t[k + 1],
        ) by {
            if k < a.len() - 1 {
                assert(t[k] == a[k]);
                assert(t[k + 1] == a[k + 1]);
            } else if k == a.len() - 1 {
                assert(t[k] == a.last());
            } else if k == a.len() {
                assert(t[k + 1] == w[0]);
            } else {
                assert(t[k] == w[k - a.len() - 1]);
            }
        }
        assert(t.last() == w.last());
        assert(t[0] == a[0]);
    } else if ws.len() == 1 {
        assert(join_words(ws) == ws[0]);
    }
}

/// What `flatten_whitespace` writes fits one TSV field: no tab, no line
/// break, and no space that is leading, trailing or doubled.
pub proof fn lemma_flattened_is_single_spaced(s: Seq<u8>)
    ensures
        single_spaced(join_words(words(s))),
{
    lemma_words_are_words(s);
    lemma_join_single_spaced(words(s));
}

} // verus!
