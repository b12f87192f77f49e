use crate_names::{normalize, rank_from_downloads};

#[test]
fn rank_is_monotonic_and_bounded() {
    assert_eq!(rank_from_downloads(0), 0);
    let mut prev = 0;
    for downloads in [1, 5, 100, 1_000, 1_000_000, 500_000_000, u64::MAX] {
        let rank = rank_from_downloads(downloads);
        assert!(rank >= prev, "rank must not decrease");
        prev = rank;
    }
    assert_eq!(rank_from_downloads(u64::MAX), 255);
    // half a billion downloads (serde territory) is still well under saturation
    assert!(rank_from_downloads(500_000_000) < 255);
}

#[test]
fn rank_matches_eight_log2_exactly() {
    // floor(8 * log2(n + 1)) at a few points
    assert_eq!(rank_from_downloads(1), 8);
    assert_eq!(rank_from_downloads(3), 16);
    assert_eq!(rank_from_downloads(5), 20);
    assert_eq!(rank_from_downloads(100), 53);
    assert_eq!(rank_from_downloads(1_000), 79);
    assert_eq!(rank_from_downloads(1_000_000), 159);
    assert_eq!(rank_from_downloads(500_000_000), 231);
}

#[test]
fn rank_steps_at_eighth_powers_of_two() {
    // 2^(1/8) * 2^31 rounded up is where the rank leaves 248 for 249
    assert_eq!(rank_from_downloads(2_341_847_522), 248);
    assert_eq!(rank_from_downloads(2_341_847_523), 249);
    assert_eq!(rank_from_downloads(2_147_483_646), 247);
    assert_eq!(rank_from_downloads(2_147_483_647), 248);
}

#[test]
fn rank_saturates_at_four_billion() {
    assert_eq!(rank_from_downloads(3_938_502_374), 254);
    assert_eq!(rank_from_downloads(3_938_502_375), 255);
    assert_eq!(rank_from_downloads(4_294_967_294), 255);
    assert_eq!(rank_from_downloads(4_294_967_295), 255);
    assert_eq!(rank_from_downloads(u64::MAX - 1), 255);
}

#[test]
fn rank_is_monotonic_over_a_sweep() {
    let mut prev = 0;
    let mut downloads: u64 = 0;
    while downloads < 5_000_000_000 {
        let rank = rank_from_downloads(downloads);
        assert!(rank >= prev);
        prev = rank;
        downloads = downloads * 3 / 2 + 1;
    }
}

#[test]
fn normalize_folds_case_and_separators() {
    assert_eq!(normalize("Tokio_Util"), "tokio_util");
    assert_eq!(normalize("tokio-util"), "tokio_util");
    assert_eq!(normalize("SERDE"), "serde");
    assert_eq!(normalize(""), "");
    // non-ASCII text is kept as it is
    assert_eq!(normalize("Ünï-X"), "Ünï_x");
}

#[test]
fn normalize_is_idempotent() {
    for name in ["Foo-Bar_Baz", "a-b", "ZZZ", "crate_names", "Ä-Ö"] {
        let once = normalize(name);
        assert_eq!(normalize(&once), once);
    }
}

use crate_names::flatten_whitespace;

#[test]
fn flatten_whitespace_collapses_runs() {
    assert_eq!(flatten_whitespace("Multi\nline\t desc"), "Multi line desc");
    assert_eq!(flatten_whitespace("  a  b  "), "a b");
    assert_eq!(flatten_whitespace(""), "");
    assert_eq!(flatten_whitespace(" \t\r\n "), "");
    assert_eq!(flatten_whitespace("plain"), "plain");
    assert_eq!(flatten_whitespace("\u{a0}x\u{3000}y\u{2028}z\u{85}"), "x y z");
    assert_eq!(flatten_whitespace("é\u{2009}ü"), "é ü");
}

#[test]
fn flatten_whitespace_agrees_with_split_whitespace() {
    let pieces = [
        "a", "bc", " ", "\t", "\n", "\u{b}", "\u{c}", "\r", "\u{85}", "\u{a0}", "\u{1680}",
        "\u{2000}", "\u{200a}", "\u{200b}", "\u{2028}", "\u{2029}", "\u{202f}", "\u{205f}",
        "\u{3000}", "é", "\u{2fff}", "\u{1f600}", "\u{180e}", "\u{feff}",
    ];
    let mut seed: u64 = 7;
    for _ in 0..2000 {
        let mut s = String::new();
        seed = seed.wrapping_mul(6364136223846793005).wrapping_add(1442695040888963407);
        let len = (seed >> 60) as usize;
        for _ in 0..len {
            seed = seed.wrapping_mul(6364136223846793005).wrapping_add(1442695040888963407);
            s.push_str(pieces[(seed >> 33) as usize % pieces.len()]);
        }
        let expected = s.split_whitespace().collect::<Vec<_>>().join(" ");
        assert_eq!(flatten_whitespace(&s), expected, "{s:?}");
    }
}
