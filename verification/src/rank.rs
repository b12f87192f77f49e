//! Download ranks: an all-time download count quantized to
//! `floor(8·log₂(n+1))`, saturating at 255.
//!
//! The rank is computed exactly in integers: `floor(8·log₂ m)` is
//! `floor(log₂(m⁸))`, so the specification below needs no real numbers.
use vstd::arithmetic::power::pow;
use vstd::arithmetic::power2::pow2;
use vstd::prelude::*;

verus! {

/// `2^k`.
pub open spec fn exp2(k: nat) -> nat
    decreases k,
{
    if k == 0 {
        1
    } else {
        2 * exp2((k - 1) as nat)
    }
}

/// `m⁸`, written as three squarings.
pub open spec fn pow8(m: nat) -> nat {
    let s = m * m;
    let q = s * s;
    q * q
}

/// `floor(log₂ x)` for `x ≥ 1` (and 0 for `x = 0`).
pub open spec fn floor_log2(x: nat) -> nat
    decreases x,
{
    if x <= 1 {
        0
    } else {
        1 + floor_log2(x / 2)
    }
}

/// The count whose logarithm is taken: `downloads + 1`, saturating at `u64::MAX`.
pub open spec fn downloads_plus_one(downloads: u64) -> nat {
    if downloads == u64::MAX {
        downloads as nat
    } else {
        downloads as nat + 1
    }
}

/// The rank of a download count: `floor(8·log₂(n+1)) = floor(log₂((n+1)⁸))`,
/// saturating at 255.
pub open spec fn rank_of(downloads: u64) -> u8 {
    let r = floor_log2(pow8(downloads_plus_one(downloads)));
    if r >= 255 {
        255
    } else {
        r as u8
    }
}

proof fn lemma_exp2_positive(k: nat)
    ensures
        exp2(k) >= 1,
    decreases k,
{
    if k > 0 {
        lemma_exp2_positive((k - 1) as nat);
    }
}

proof fn lemma_exp2_add(a: nat, b: nat)
    ensures
        exp2(a + b) == exp2(a) * exp2(b),
    decreases a,
{
    if a > 0 {
        let a1 = (a - 1) as nat;
        lemma_exp2_add(a1, b);
        assert(exp2(a + b) == 2 * exp2(a1 + b));
        assert(exp2(a) * exp2(b) == 2 * (exp2(a1) * exp2(b))) by (nonlinear_arith)
            requires
                exp2(a) == 2 * exp2(a1),
        ;
    } else {
        assert(exp2(0) == 1);
        assert(exp2(a) * exp2(b) == exp2(b)) by (nonlinear_arith)
            requires
                exp2(a) == 1,
        ;
    }
}

proof fn lemma_exp2_strictly_increasing(a: nat, b: nat)
    requires
        a < b,
    ensures
        exp2(a) < exp2(b),
    decreases b,
{
    lemma_exp2_positive(a);
    if a + 1 < b {
        lemma_exp2_strictly_increasing(a, (b - 1) as nat);
    }
}

/// `floor_log2(x) == k` exactly when `2^k ≤ x < 2^(k+1)`.
proof fn lemma_floor_log2_exact(x: nat, k: nat)
    requires
        exp2(k) <= x < exp2(k + 1),
    ensures
        floor_log2(x) == k,
    decreases k,
{
    if k > 0 {
        let k1 = (k - 1) as nat;
        assert(exp2(k) == 2 * exp2(k1));
        assert(exp2(k + 1) == 2 * exp2(k));
        lemma_exp2_positive(k1);
        assert(exp2(k1) <= x / 2 < exp2(k1 + 1));
        lemma_floor_log2_exact(x / 2, k1);
    } else {
        assert(exp2(0) == 1);
        assert(exp2(1) == 2);
    }
}

/// `floor_log2` never decreases.
proof fn lemma_floor_log2_monotonic(x: nat, y: nat)
    requires
        x <= y,
    ensures
        floor_log2(x) <= floor_log2(y),
    decreases y,
{
    if x > 1 {
        lemma_floor_log2_monotonic(x / 2, y / 2);
    }
}

proof fn lemma_square_monotonic(a: nat, b: nat)
    requires
        a <= b,
    ensures
        a * a <= b * b,
{
    assert(a * a <= b * b) by (nonlinear_arith)
        requires
            a <= b,
    ;
}

/// `m ↦ m⁸` never decreases.
proof fn lemma_pow8_monotonic(a: nat, b: nat)
    requires
        a <= b,
    ensures
        pow8(a) <= pow8(b),
{
    lemma_square_monotonic(a, b);
    lemma_square_monotonic(a * a, b * b);
    lemma_square_monotonic(a * a * (a * a), b * b * (b * b));
}

proof fn lemma_square_of_product(a: nat, b: nat)
    ensures
        (a * b) * (a * b) == (a * a) * (b * b),
{
    assert((a * b) * (a * b) == (a * a) * (b * b)) by (nonlinear_arith);
}

/// `(m·2^s)⁸ = m⁸·2^(8s)`.
proof fn lemma_pow8_scaled(m: nat, s: nat)
    ensures
        pow8(m * exp2(s)) == pow8(m) * exp2(8 * s),
{
    let p = exp2(s);
    lemma_square_of_product(m, p);
    lemma_square_of_product(m * m, p * p);
    lemma_square_of_product(m * m * (m * m), p * p * (p * p));
    lemma_exp2_add(s, s);
    lemma_exp2_add(2 * s, 2 * s);
    lemma_exp2_add(4 * s, 4 * s);
}

/// The thresholds `c` used by the computation, each the least integer with
/// `c⁸ ≥ 2^(248+j)`.
proof fn lemma_thresholds()
    ensures
        exp2(248) == pow8(2147483648),
        pow8(2341847524) >= exp2(249) > pow8(2341847523),
        pow8(2553802834) >= exp2(250) > pow8(2553802833),
        pow8(2784941738) >= exp2(251) > pow8(2784941737),
        pow8(3037000500) >= exp2(252) > pow8(3037000499),
        pow8(3311872530) >= exp2(253) > pow8(3311872529),
        pow8(3611622603) >= exp2(254) > pow8(3611622602),
        pow8(3938502376) >= exp2(255) > pow8(3938502375),
        exp2(256) > pow8(4294967295),
        exp2(256) == pow8(4294967296),
{
    reveal_with_fuel(exp2, 33);
    assert(exp2(32) == 4294967296);
    lemma_exp2_add(32, 32);
    assert(exp2(64) == 18446744073709551616);
    lemma_exp2_add(64, 64);
    assert(exp2(128) == 340282366920938463463374607431768211456);
    lemma_exp2_add(128, 64);
    assert(exp2(192) == 6277101735386680763835789423207666416102355444464034512896);
    lemma_exp2_add(192, 32);
    assert(exp2(224) == 26959946667150639794667015087019630673637144422540572481103610249216);
    lemma_exp2_add(128, 128);
    assert(exp2(256) == 115792089237316195423570985008687907853269984665640564039457584007913129639936);
    assert(exp2(24) == 16777216);
    lemma_exp2_add(224, 24);
    assert(exp2(248) == 452312848583266388373324160190187140051835877600158453279131187530910662656);
    assert(exp2(25) == 33554432);
    lemma_exp2_add(224, 25);
    assert(exp2(249) == 904625697166532776746648320380374280103671755200316906558262375061821325312);
    assert(exp2(26) == 67108864);
    lemma_exp2_add(224, 26);
    assert(exp2(250) == 1809251394333065553493296640760748560207343510400633813116524750123642650624);
    assert(exp2(27) == 134217728);
    lemma_exp2_add(224, 27);
    assert(exp2(251) == 3618502788666131106986593281521497120414687020801267626233049500247285301248);
    assert(exp2(28) == 268435456);
    lemma_exp2_add(224, 28);
    assert(exp2(252) == 7237005577332262213973186563042994240829374041602535252466099000494570602496);
    assert(exp2(29) == 536870912);
    lemma_exp2_add(224, 29);
    assert(exp2(253) == 14474011154664524427946373126085988481658748083205070504932198000989141204992);
    assert(exp2(30) == 1073741824);
    lemma_exp2_add(224, 30);
    assert(exp2(254) == 28948022309329048855892746252171976963317496166410141009864396001978282409984);
    assert(exp2(31) == 2147483648);
    lemma_exp2_add(224, 31);
    assert(exp2(255) == 57896044618658097711785492504343953926634992332820282019728792003956564819968);
    assert(pow8(2147483648) == 452312848583266388373324160190187140051835877600158453279131187530910662656) by {
        assert(2147483648 * 2147483648 == 4611686018427387904);
        assert(4611686018427387904 * 4611686018427387904 == 21267647932558653966460912964485513216);
        assert(21267647932558653966460912964485513216 * 21267647932558653966460912964485513216 == 452312848583266388373324160190187140051835877600158453279131187530910662656);
    }
    assert(pow8(2341847524) == 904625697425511201577612645469403538751390020254931734032821205931802034176) by {
        assert(2341847524 * 2341847524 == 5484249825664930576);
        assert(5484249825664930576 * 5484249825664930576 == 30076996150305821415572431070899691776);
        assert(30076996150305821415572431070899691776 * 30076996150305821415572431070899691776 == 904625697425511201577612645469403538751390020254931734032821205931802034176);
    }
    assert(pow8(2553802834) == 1809251396863101725653671945650095000367919662413714721210327635269943050496) by {
        assert(2553802834 * 2553802834 == 6521908914946431556);
        assert(6521908914946431556 * 6521908914946431556 == 42535295894857740200030313058192581136);
        assert(42535295894857740200030313058192581136 * 42535295894857740200030313058192581136 == 1809251396863101725653671945650095000367919662413714721210327635269943050496);
    }
    assert(pow8(2784941738) == 3618502791860920350550307425097920190422321304363709677633964119783720509696) by {
        assert(2784941738 * 2784941738 == 7755900484054460644);
        assert(7755900484054460644 * 7755900484054460644 == 60153992318556216926320069353744894736);
        assert(60153992318556216926320069353744894736 * 60153992318556216926320069353744894736 == 3618502791860920350550307425097920190422321304363709677633964119783720509696);
    }
    assert(pow8(3037000500) == 7237005577788840365512576120044818450858802974127312503906250000000000000000) by {
        assert(3037000500 * 3037000500 == 9223372037000250000);
        assert(9223372037000250000 * 9223372037000250000 == 85070591732918141055018500062500000000);
        assert(85070591732918141055018500062500000000 * 85070591732918141055018500062500000000 == 7237005577788840365512576120044818450858802974127312503906250000000000000000);
    }
    assert(pow8(3311872530) == 14474011178014875279199689064290010210462086094603641655227254038256100000000) by {
        assert(3311872530 * 3311872530 == 10968499654968600900);
        assert(10968499654968600900 * 10968499654968600900 == 120307984681046316989966364903480810000);
        assert(120307984681046316989966364903480810000 * 120307984681046316989966364903480810000 == 14474011178014875279199689064290010210462086094603641655227254038256100000000);
    }
    assert(pow8(3611622603) == 28948022319695030323689205057239286112408482116440913310000092095429430136161) by {
        assert(3611622603 * 3611622603 == 13043817826500495609);
        assert(13043817826500495609 * 13043817826500495609 == 170141183490932113369268347922628280881);
        assert(170141183490932113369268347922628280881 * 170141183490932113369268347922628280881 == 28948022319695030323689205057239286112408482116440913310000092095429430136161);
    }
    assert(pow8(3938502376) == 57896044634671238790984711216015266947472697764855476288159461997442945253376) by {
        assert(3938502376 * 3938502376 == 15511800965757645376);
        assert(15511800965757645376 * 15511800965757645376 == 240615969201279819774703202195774181376);
        assert(240615969201279819774703202195774181376 * 240615969201279819774703202195774181376 == 57896044634671238790984711216015266947472697764855476288159461997442945253376);
    }
    assert(pow8(4294967296) == 115792089237316195423570985008687907853269984665640564039457584007913129639936) by {
        assert(4294967296 * 4294967296 == 18446744073709551616);
        assert(18446744073709551616 * 18446744073709551616 == 340282366920938463463374607431768211456);
        assert(340282366920938463463374607431768211456 * 340282366920938463463374607431768211456 == 115792089237316195423570985008687907853269984665640564039457584007913129639936);
    }
    assert(pow8(2341847523) == 904625694335213693127165670034103251000750853730744771936818771015832645281) by {
        assert(2341847523 * 2341847523 == 5484249820981235529);
        assert(5484249820981235529 * 5484249820981235529 == 30076996098932713947554532723371909841);
        assert(30076996098932713947554532723371909841 * 30076996098932713947554532723371909841 == 904625694335213693127165670034103251000750853730744771936818771015832645281);
    }
    assert(pow8(2553802833) == 1809251391195471099526758264680351811243463376926825419132961173633962983041) by {
        assert(2553802833 * 2553802833 == 6521908909838825889);
        assert(6521908909838825889 * 6521908909838825889 == 42535295828235062358841519074056640321);
        assert(42535295828235062358841519074056640321 * 42535295828235062358841519074056640321 == 1809251391195471099526758264680351811243463376926825419132961173633962983041);
    }
    assert(pow8(2784941737) == 3618502781466439954958390234248695547869050278641248280693285906846328902721) by {
        assert(2784941737 * 2784941737 == 7755900478484577169);
        assert(7755900478484577169 * 7755900478484577169 == 60153992232157293077584788596716054561);
        assert(60153992232157293077584788596716054561 * 60153992232157293077584788596716054561 == 3618502781466439954958390234248695547869050278641248280693285906846328902721);
    }
    assert(pow8(3037000499) == 7237005558725279277660183904876446852802385599279433726725111617379710996001) by {
        assert(3037000499 * 3037000499 == 9223372030926249001);
        assert(9223372030926249001 * 9223372030926249001 == 85070591620872599158135621271853498001);
        assert(85070591620872599158135621271853498001 * 85070591620872599158135621271853498001 == 7237005558725279277660183904876446852802385599279433726725111617379710996001);
    }
    assert(pow8(3311872529) == 14474011143052150037552341051047279880292784441407784315788663295415850232961) by {
        assert(3311872529 * 3311872529 == 10968499648344855841);
        assert(10968499648344855841 * 10968499648344855841 == 120307984535741226245357413487071817281);
        assert(120307984535741226245357413487071817281 * 120307984535741226245357413487071817281 == 14474011143052150037552341051047279880292784441407784315788663295415850232961);
    }
    assert(pow8(3611622602) == 28948022255573109572399256430569719594614236118432368746580217393534415462656) by {
        assert(3611622602 * 3611622602 == 13043817819277250404);
        assert(13043817819277250404 * 13043817819277250404 == 170141183302494724281117165538518163216);
        assert(170141183302494724281117165538518163216 * 170141183302494724281117165538518163216 == 28948022255573109572399256430569719594614236118432368746580217393534415462656);
    }
    assert(pow8(3938502375) == 57896044517071117615948130240625396711814279011328324965181410312652587890625) by {
        assert(3938502375 * 3938502375 == 15511800957880640625);
        assert(15511800957880640625 * 15511800957880640625 == 240615968956906760029071684160400390625);
        assert(240615968956906760029071684160400390625 * 240615968956906760029071684160400390625 == 57896044517071117615948130240625396711814279011328324965181410312652587890625);
    }
    assert(pow8(4294967295) == 115792089021636622262124715160334756877804245386980633020041035952359812890625) by {
        assert(4294967295 * 4294967295 == 18446744065119617025);
        assert(18446744065119617025 * 18446744065119617025 == 340282366604025813516997721482669850625);
        assert(340282366604025813516997721482669850625 * 340282366604025813516997721482669850625 == 115792089021636622262124715160334756877804245386980633020041035952359812890625);
    }
}

proof fn lemma_exp2_monotonic(a: nat, b: nat)
    requires
        a <= b,
    ensures
        exp2(a) <= exp2(b),
{
    if a < b {
        lemma_exp2_strictly_increasing(a, b);
    }
}

proof fn lemma_cancel_factor(a: nat, b: nat, x: nat)
    requires
        x > 0,
    ensures
        a * x <= b * x ==> a <= b,
        a * x < b * x ==> a < b,
{
    assert(a * x <= b * x ==> a <= b) by (nonlinear_arith)
        requires
            x > 0,
    ;
    assert(a * x < b * x ==> a < b) by (nonlinear_arith)
        requires
            x > 0,
    ;
}

/// Once `m` has been scaled by `2^s` into `[lo, hi]`, and `lo⁸, hi⁸` bracket
/// `2^(248+j)` and `2^(249+j)`, the rank of `m` is `8·(31-s) + j`.
proof fn lemma_rank_in_octave(m: nat, s: nat, y: nat, j: nat, lo: nat, hi: nat)
    requires
        y == m * exp2(s),
        s <= 31,
        j < 8,
        lo <= y <= hi,
        pow8(lo) >= exp2(248 + j),
        pow8(hi) < exp2(249 + j),
    ensures
        floor_log2(pow8(m)) == 8 * (31 - s) + j,
{
    let e = (31 - s) as nat;
    let k = 8 * e + j;
    lemma_pow8_monotonic(lo, y);
    lemma_pow8_monotonic(y, hi);
    lemma_pow8_scaled(m, s);
    lemma_exp2_add(k, 8 * s);
    lemma_exp2_add(k + 1, 8 * s);
    assert(k + 8 * s == 248 + j);
    lemma_exp2_positive(8 * s);
    lemma_cancel_factor(exp2(k), pow8(m), exp2(8 * s));
    lemma_cancel_factor(pow8(m), exp2(k + 1), exp2(8 * s));
    lemma_floor_log2_exact(pow8(m), k);
}

/// Quantize an all-time download count into a rank in `0..=255`.
///
/// Eight sub-buckets per doubling of downloads (`floor(8·log₂(n+1))`),
/// which preserves ordering at every scale while compressing to almost
/// nothing. Saturates around 4×10⁹ downloads, comfortably above the most
/// downloaded crate.
pub fn rank_from_downloads(downloads: u64) -> (rank: u8)
    ensures
        rank == rank_of(downloads),
{
    let m = downloads.saturating_add(1);
    assert(m == downloads_plus_one(downloads));
    if m >= 0x1_0000_0000 {
        proof {
            lemma_thresholds();
            lemma_pow8_monotonic(4294967296, m as nat);
            lemma_exp2_strictly_increasing(256, 257);
            lemma_floor_log2_exact(exp2(256), 256);
            lemma_floor_log2_monotonic(exp2(256), pow8(m as nat));
        }
        return 255;
    }
    let mut y: u64 = m;
    let mut s: u64 = 0;
    proof {
        assert(exp2(0) == 1);
        assert(m * exp2(0) == m);
    }
    while y < 0x8000_0000
        invariant
            1 <= m < 0x1_0000_0000,
            y == m * exp2(s as nat),
            1 <= y < 0x1_0000_0000,
            s <= 31,
        decreases 31 - s,
    {
        proof {
            lemma_exp2_positive(s as nat);
            assert(y >= exp2(s as nat)) by (nonlinear_arith)
                requires
                    y == m * exp2(s as nat),
                    m >= 1,
            ;
            reveal_with_fuel(exp2, 32);
            if s >= 31 {
                lemma_exp2_monotonic(31, s as nat);
            }
            assert(exp2((s + 1) as nat) == 2 * exp2(s as nat));
            assert(m * exp2((s + 1) as nat) == 2 * (m * exp2(s as nat))) by (nonlinear_arith)
                requires
                    exp2((s + 1) as nat) == 2 * exp2(s as nat),
            ;
        }
        y = y * 2;
        s = s + 1;
    }
    let j: u64 = if y >= 3938502376 {
        7
    } else if y >= 3611622603 {
        6
    } else if y >= 3311872530 {
        5
    } else if y >= 3037000500 {
        4
    } else if y >= 2784941738 {
        3
    } else if y >= 2553802834 {
        2
    } else if y >= 2341847524 {
        1
    } else {
        0
    };
    proof {
        lemma_thresholds();
        let (lo, hi): (nat, nat) = if j == 7 {
            (3938502376, 4294967295)
        } else if j == 6 {
            (3611622603, 3938502375)
        } else if j == 5 {
            (3311872530, 3611622602)
        } else if j == 4 {
            (3037000500, 3311872529)
        } else if j == 3 {
            (2784941738, 3037000499)
        } else if j == 2 {
            (2553802834, 2784941737)
        } else if j == 1 {
            (2341847524, 2553802833)
        } else {
            (2147483648, 2341847523)
        };
        lemma_rank_in_octave(m as nat, s as nat, y as nat, j as nat, lo, hi);
    }
    (8 * (31 - s) + j) as u8
}

/// Ranks preserve the order of download counts: more downloads never give a
/// lower rank.
pub proof fn lemma_rank_monotonic(a: u64, b: u64)
    requires
        a <= b,
    ensures
        rank_of(a) <= rank_of(b),
{
    lemma_pow8_monotonic(downloads_plus_one(a), downloads_plus_one(b));
    lemma_floor_log2_monotonic(pow8(downloads_plus_one(a)), pow8(downloads_plus_one(b)));
}

/// No downloads is rank 0, and every count of `2^32 - 1` or more saturates at 255.
pub proof fn lemma_rank_bounds(downloads: u64)
    ensures
        downloads == 0 ==> rank_of(downloads) == 0,
        downloads >= 0xFFFF_FFFF ==> rank_of(downloads) == 255,
{
    assert(pow8(1) == 1);
    if downloads >= 0xFFFF_FFFF {
        lemma_thresholds();
        lemma_pow8_monotonic(4294967296, downloads_plus_one(downloads));
        lemma_exp2_strictly_increasing(256, 257);
        lemma_floor_log2_exact(exp2(256), 256);
        lemma_floor_log2_monotonic(exp2(256), pow8(downloads_plus_one(downloads)));
    }
}

proof fn lemma_exp2_is_pow(k: nat)
    ensures
        exp2(k) as int == pow(2, k),
    decreases k,
{
    reveal(pow);
    if k > 0 {
        lemma_exp2_is_pow((k - 1) as nat);
        assert(pow(2, k) == 2 * pow(2, (k - 1) as nat));
    }
}

proof fn lemma_exp2_is_pow2(k: nat)
    ensures
        exp2(k) == pow2(k),
{
    lemma_exp2_is_pow(k);
}

proof fn lemma_pow8_is_pow(m: nat)
    ensures
        pow8(m) == pow(m as int, 8),
{
    reveal_with_fuel(pow, 9);
    let x = m as int;
    assert(pow(x, 8) == x * (x * (x * (x * (x * (x * (x * (x * 1))))))));
    assert(((x * x) * (x * x)) * ((x * x) * (x * x)) == x * (x * (x * (x * (x * (x * (x * (x
        * 1)))))))) by (nonlinear_arith);
}

proof fn lemma_floor_log2_brackets(x: nat)
    requires
        x >= 1,
    ensures
        exp2(floor_log2(x)) <= x < exp2(floor_log2(x) + 1),
    decreases x,
{
    if x >= 2 {
        lemma_floor_log2_brackets(x / 2);
        let f = floor_log2(x / 2);
        assert(floor_log2(x) == 1 + f);
        assert(exp2(f + 1) == 2 * exp2(f));
        assert(exp2(f + 2) == 2 * exp2(f + 1));
    }
}

/// The rank counts the doublings in `(downloads + 1)⁸` (the count saturating
/// at `u64::MAX`): below saturation `2^rank ≤ (downloads + 1)⁸ < 2^(rank + 1)`,
/// and the rank is 255 exactly when `(downloads + 1)⁸ ≥ 2^255`.
pub proof fn lemma_rank_doublings(downloads: u64)
    ensures
        rank_of(downloads) < 255 ==> pow2(rank_of(downloads) as nat) <= pow(
            if downloads == u64::MAX {
                downloads as int
            } else {
                downloads + 1
            },
            8,
        ) < pow2(rank_of(downloads) as nat + 1),
        rank_of(downloads) == 255 <==> pow(
            if downloads == u64::MAX {
                downloads as int
            } else {
                downloads + 1
            },
            8,
        ) >= pow2(255),
{
    let n = downloads_plus_one(downloads);
    assert(n as int == if downloads == u64::MAX {
        downloads as int
    } else {
        downloads + 1
    });
    lemma_pow8_is_pow(n);
    let p = pow8(n);
    assert(p >= 1) by (nonlinear_arith)
        requires
            n >= 1,
            p == pow8(n),
    {
        assert(n * n >= 1);
        assert((n * n) * (n * n) >= 1);
        assert(((n * n) * (n * n)) * ((n * n) * (n * n)) >= 1);
    }
    lemma_floor_log2_brackets(p);
    let r = floor_log2(p);
    lemma_exp2_is_pow2(r);
    lemma_exp2_is_pow2(r + 1);
    lemma_exp2_is_pow2(255);
    if r < 255 {
        lemma_exp2_monotonic(r + 1, 255);
    } else {
        lemma_exp2_monotonic(255, r);
    }
}

} // verus!
