//! The table of pre-rounded extended-precision approximations to powers
//! of ten, `10^k` for `k` stepping by 8 from -348 to +340, and the search
//! that aligns a binary exponent into the digit generator's working range.

use vstd::arithmetic::power2::{lemma2_to64, lemma2_to64_rest, pow2};
use vstd::prelude::*;

use crate::digits::{lemma_pow10_values, pow10};
use crate::extended::FloatType;

verus! {

/// Number of entries in the power-of-ten table.
pub const NPOWERS: i32 = 87;

/// Decimal exponent of the first table entry.
pub const FIRSTPOWER: i32 = -348;

/// Decimal exponent step between adjacent table entries.
pub const STEPPOWERS: i32 = 8;

/// Highest binary exponent the digit generator accepts.
pub const EXPMAX: i32 = -32;

/// Lowest binary exponent the digit generator accepts.
pub const EXPMIN: i32 = -60;

/// The rounded 64-bit significand of the table's approximation to
/// `10^(FIRSTPOWER + 8 * i)`.
pub open spec fn pow10_frac(i: int) -> u64 {
    if i == 0 {
        18054884314459144840
    } else if i == 1 {
        13451937075301367670
    } else if i == 2 {
        10022474136428063862
    } else if i == 3 {
        14934650266808366570
    } else if i == 4 {
        11127181549972568877
    } else if i == 5 {
        16580792590934885855
    } else if i == 6 {
        12353653155963782858
    } else if i == 7 {
        18408377700990114895
    } else if i == 8 {
        13715310171984221708
    } else if i == 9 {
        10218702384817765436
    } else if i == 10 {
        15227053142812498563
    } else if i == 11 {
        11345038669416679861
    } else if i == 12 {
        16905424996341287883
    } else if i == 13 {
        12595523146049147757
    } else if i == 14 {
        9384396036005875287
    } else if i == 15 {
        13983839803942852151
    } else if i == 16 {
        10418772551374772303
    } else if i == 17 {
        15525180923007089351
    } else if i == 18 {
        11567161174868858868
    } else if i == 19 {
        17236413322193710309
    } else if i == 20 {
        12842128665889583758
    } else if i == 21 {
        9568131466127621947
    } else if i == 22 {
        14257626930069360058
    } else if i == 23 {
        10622759856335341974
    } else if i == 24 {
        15829145694278690180
    } else if i == 25 {
        11793632577567316726
    } else if i == 26 {
        17573882009934360870
    } else if i == 27 {
        13093562431584567480
    } else if i == 28 {
        9755464219737475723
    } else if i == 29 {
        14536774485912137811
    } else if i == 30 {
        10830740992659433045
    } else if i == 31 {
        16139061738043178685
    } else if i == 32 {
        12024538023802026127
    } else if i == 33 {
        17917957937422433684
    } else if i == 34 {
        13349918974505688015
    } else if i == 35 {
        9946464728195732843
    } else if i == 36 {
        14821387422376473014
    } else if i == 37 {
        11042794154864902060
    } else if i == 38 {
        16455045573212060422
    } else if i == 39 {
        12259964326927110867
    } else if i == 40 {
        18268770466636286478
    } else if i == 41 {
        13611294676837538539
    } else if i == 42 {
        10141204801825835212
    } else if i == 43 {
        15111572745182864684
    } else if i == 44 {
        11258999068426240000
    } else if i == 45 {
        16777216000000000000
    } else if i == 46 {
        12500000000000000000
    } else if i == 47 {
        9313225746154785156
    } else if i == 48 {
        13877787807814456755
    } else if i == 49 {
        10339757656912845936
    } else if i == 50 {
        15407439555097886824
    } else if i == 51 {
        11479437019748901445
    } else if i == 52 {
        17105694144590052135
    } else if i == 53 {
        12744735289059618216
    } else if i == 54 {
        9495567745759798747
    } else if i == 55 {
        14149498560666738074
    } else if i == 56 {
        10542197943230523224
    } else if i == 57 {
        15709099088952724970
    } else if i == 58 {
        11704190886730495818
    } else if i == 59 {
        17440603504673385349
    } else if i == 60 {
        12994262207056124023
    } else if i == 61 {
        9681479787123295682
    } else if i == 62 {
        14426529090290212157
    } else if i == 63 {
        10748601772107342003
    } else if i == 64 {
        16016664761464807395
    } else if i == 65 {
        11933345169920330789
    } else if i == 66 {
        17782069995880619868
    } else if i == 67 {
        13248674568444952270
    } else if i == 68 {
        9871031767461413346
    } else if i == 69 {
        14708983551653345445
    } else if i == 70 {
        10959046745042015199
    } else if i == 71 {
        16330252207878254650
    } else if i == 72 {
        12166986024289022870
    } else if i == 73 {
        18130221999122236476
    } else if i == 74 {
        13508068024458167312
    } else if i == 75 {
        10064294952495520794
    } else if i == 76 {
        14996968138956309548
    } else if i == 77 {
        11173611982879273257
    } else if i == 78 {
        16649979327439178909
    } else if i == 79 {
        12405201291620119593
    } else if i == 80 {
        9242595204427927429
    } else if i == 81 {
        13772540099066387757
    } else if i == 82 {
        10261342003245940623
    } else if i == 83 {
        15290591125556738113
    } else if i == 84 {
        11392378155556871081
    } else if i == 85 {
        16975966327722178521
    } else {
        12648080533535911531
    }
}

/// The binary exponent of the table's approximation to
/// `10^(FIRSTPOWER + 8 * i)`.
pub open spec fn pow10_exp(i: int) -> int {
    if i == 0 {
        -1220
    } else if i == 1 {
        -1193
    } else if i == 2 {
        -1166
    } else if i == 3 {
        -1140
    } else if i == 4 {
        -1113
    } else if i == 5 {
        -1087
    } else if i == 6 {
        -1060
    } else if i == 7 {
        -1034
    } else if i == 8 {
        -1007
    } else if i == 9 {
        -980
    } else if i == 10 {
        -954
    } else if i == 11 {
        -927
    } else if i == 12 {
        -901
    } else if i == 13 {
        -874
    } else if i == 14 {
        -847
    } else if i == 15 {
        -821
    } else if i == 16 {
        -794
    } else if i == 17 {
        -768
    } else if i == 18 {
        -741
    } else if i == 19 {
        -715
    } else if i == 20 {
        -688
    } else if i == 21 {
        -661
    } else if i == 22 {
        -635
    } else if i == 23 {
        -608
    } else if i == 24 {
        -582
    } else if i == 25 {
        -555
    } else if i == 26 {
        -529
    } else if i == 27 {
        -502
    } else if i == 28 {
        -475
    } else if i == 29 {
        -449
    } else if i == 30 {
        -422
    } else if i == 31 {
        -396
    } else if i == 32 {
        -369
    } else if i == 33 {
        -343
    } else if i == 34 {
        -316
    } else if i == 35 {
        -289
    } else if i == 36 {
        -263
    } else if i == 37 {
        -236
    } else if i == 38 {
        -210
    } else if i == 39 {
        -183
    } else if i == 40 {
        -157
    } else if i == 41 {
        -130
    } else if i == 42 {
        -103
    } else if i == 43 {
        -77
    } else if i == 44 {
        -50
    } else if i == 45 {
        -24
    } else if i == 46 {
        3
    } else if i == 47 {
        30
    } else if i == 48 {
        56
    } else if i == 49 {
        83
    } else if i == 50 {
        109
    } else if i == 51 {
        136
    } else if i == 52 {
        162
    } else if i == 53 {
        189
    } else if i == 54 {
        216
    } else if i == 55 {
        242
    } else if i == 56 {
        269
    } else if i == 57 {
        295
    } else if i == 58 {
        322
    } else if i == 59 {
        348
    } else if i == 60 {
        375
    } else if i == 61 {
        402
    } else if i == 62 {
        428
    } else if i == 63 {
        455
    } else if i == 64 {
        481
    } else if i == 65 {
        508
    } else if i == 66 {
        534
    } else if i == 67 {
        561
    } else if i == 68 {
        588
    } else if i == 69 {
        614
    } else if i == 70 {
        641
    } else if i == 71 {
        667
    } else if i == 72 {
        694
    } else if i == 73 {
        720
    } else if i == 74 {
        747
    } else if i == 75 {
        774
    } else if i == 76 {
        800
    } else if i == 77 {
        827
    } else if i == 78 {
        853
    } else if i == 79 {
        880
    } else if i == 80 {
        907
    } else if i == 81 {
        933
    } else if i == 82 {
        960
    } else if i == 83 {
        986
    } else if i == 84 {
        1013
    } else if i == 85 {
        1039
    } else {
        1066
    }
}

fn pow10_frac_at(i: usize) -> (r: u64)
    requires
        i < 87,
    ensures
        r == pow10_frac(i as int),
{
    if i == 0 {
        18054884314459144840
    } else if i == 1 {
        13451937075301367670
    } else if i == 2 {
        10022474136428063862
    } else if i == 3 {
        14934650266808366570
    } else if i == 4 {
        11127181549972568877
    } else if i == 5 {
        16580792590934885855
    } else if i == 6 {
        12353653155963782858
    } else if i == 7 {
        18408377700990114895
    } else if i == 8 {
        13715310171984221708
    } else if i == 9 {
        10218702384817765436
    } else if i == 10 {
        15227053142812498563
    } else if i == 11 {
        11345038669416679861
    } else if i == 12 {
        16905424996341287883
    } else if i == 13 {
        12595523146049147757
    } else if i == 14 {
        9384396036005875287
    } else if i == 15 {
        13983839803942852151
    } else if i == 16 {
        10418772551374772303
    } else if i == 17 {
        15525180923007089351
    } else if i == 18 {
        11567161174868858868
    } else if i == 19 {
        17236413322193710309
    } else if i == 20 {
        12842128665889583758
    } else if i == 21 {
        9568131466127621947
    } else if i == 22 {
        14257626930069360058
    } else if i == 23 {
        10622759856335341974
    } else if i == 24 {
        15829145694278690180
    } else if i == 25 {
        11793632577567316726
    } else if i == 26 {
        17573882009934360870
    } else if i == 27 {
        13093562431584567480
    } else if i == 28 {
        9755464219737475723
    } else if i == 29 {
        14536774485912137811
    } else if i == 30 {
        10830740992659433045
    } else if i == 31 {
        16139061738043178685
    } else if i == 32 {
        12024538023802026127
    } else if i == 33 {
        17917957937422433684
    } else if i == 34 {
        13349918974505688015
    } else if i == 35 {
        9946464728195732843
    } else if i == 36 {
        14821387422376473014
    } else if i == 37 {
        11042794154864902060
    } else if i == 38 {
        16455045573212060422
    } else if i == 39 {
        12259964326927110867
    } else if i == 40 {
        18268770466636286478
    } else if i == 41 {
        13611294676837538539
    } else if i == 42 {
        10141204801825835212
    } else if i == 43 {
        15111572745182864684
    } else if i == 44 {
        11258999068426240000
    } else if i == 45 {
        16777216000000000000
    } else if i == 46 {
        12500000000000000000
    } else if i == 47 {
        9313225746154785156
    } else if i == 48 {
        13877787807814456755
    } else if i == 49 {
        10339757656912845936
    } else if i == 50 {
        15407439555097886824
    } else if i == 51 {
        11479437019748901445
    } else if i == 52 {
        17105694144590052135
    } else if i == 53 {
        12744735289059618216
    } else if i == 54 {
        9495567745759798747
    } else if i == 55 {
        14149498560666738074
    } else if i == 56 {
        10542197943230523224
    } else if i == 57 {
        15709099088952724970
    } else if i == 58 {
        11704190886730495818
    } else if i == 59 {
        17440603504673385349
    } else if i == 60 {
        12994262207056124023
    } else if i == 61 {
        9681479787123295682
    } else if i == 62 {
        14426529090290212157
    } else if i == 63 {
        10748601772107342003
    } else if i == 64 {
        16016664761464807395
    } else if i == 65 {
        11933345169920330789
    } else if i == 66 {
        17782069995880619868
    } else if i == 67 {
        13248674568444952270
    } else if i == 68 {
        9871031767461413346
    } else if i == 69 {
        14708983551653345445
    } else if i == 70 {
        10959046745042015199
    } else if i == 71 {
        16330252207878254650
    } else if i == 72 {
        12166986024289022870
    } else if i == 73 {
        18130221999122236476
    } else if i == 74 {
        13508068024458167312
    } else if i == 75 {
        10064294952495520794
    } else if i == 76 {
        14996968138956309548
    } else if i == 77 {
        11173611982879273257
    } else if i == 78 {
        16649979327439178909
    } else if i == 79 {
        12405201291620119593
    } else if i == 80 {
        9242595204427927429
    } else if i == 81 {
        13772540099066387757
    } else if i == 82 {
        10261342003245940623
    } else if i == 83 {
        15290591125556738113
    } else if i == 84 {
        11392378155556871081
    } else if i == 85 {
        16975966327722178521
    } else {
        12648080533535911531
    }
}

fn pow10_exp_at(i: usize) -> (r: i32)
    requires
        i < 87,
    ensures
        r as int == pow10_exp(i as int),
{
    if i == 0 {
        -1220i32
    } else if i == 1 {
        -1193i32
    } else if i == 2 {
        -1166i32
    } else if i == 3 {
        -1140i32
    } else if i == 4 {
        -1113i32
    } else if i == 5 {
        -1087i32
    } else if i == 6 {
        -1060i32
    } else if i == 7 {
        -1034i32
    } else if i == 8 {
        -1007i32
    } else if i == 9 {
        -980i32
    } else if i == 10 {
        -954i32
    } else if i == 11 {
        -927i32
    } else if i == 12 {
        -901i32
    } else if i == 13 {
        -874i32
    } else if i == 14 {
        -847i32
    } else if i == 15 {
        -821i32
    } else if i == 16 {
        -794i32
    } else if i == 17 {
        -768i32
    } else if i == 18 {
        -741i32
    } else if i == 19 {
        -715i32
    } else if i == 20 {
        -688i32
    } else if i == 21 {
        -661i32
    } else if i == 22 {
        -635i32
    } else if i == 23 {
        -608i32
    } else if i == 24 {
        -582i32
    } else if i == 25 {
        -555i32
    } else if i == 26 {
        -529i32
    } else if i == 27 {
        -502i32
    } else if i == 28 {
        -475i32
    } else if i == 29 {
        -449i32
    } else if i == 30 {
        -422i32
    } else if i == 31 {
        -396i32
    } else if i == 32 {
        -369i32
    } else if i == 33 {
        -343i32
    } else if i == 34 {
        -316i32
    } else if i == 35 {
        -289i32
    } else if i == 36 {
        -263i32
    } else if i == 37 {
        -236i32
    } else if i == 38 {
        -210i32
    } else if i == 39 {
        -183i32
    } else if i == 40 {
        -157i32
    } else if i == 41 {
        -130i32
    } else if i == 42 {
        -103i32
    } else if i == 43 {
        -77i32
    } else if i == 44 {
        -50i32
    } else if i == 45 {
        -24i32
    } else if i == 46 {
        3i32
    } else if i == 47 {
        30i32
    } else if i == 48 {
        56i32
    } else if i == 49 {
        83i32
    } else if i == 50 {
        109i32
    } else if i == 51 {
        136i32
    } else if i == 52 {
        162i32
    } else if i == 53 {
        189i32
    } else if i == 54 {
        216i32
    } else if i == 55 {
        242i32
    } else if i == 56 {
        269i32
    } else if i == 57 {
        295i32
    } else if i == 58 {
        322i32
    } else if i == 59 {
        348i32
    } else if i == 60 {
        375i32
    } else if i == 61 {
        402i32
    } else if i == 62 {
        428i32
    } else if i == 63 {
        455i32
    } else if i == 64 {
        481i32
    } else if i == 65 {
        508i32
    } else if i == 66 {
        534i32
    } else if i == 67 {
        561i32
    } else if i == 68 {
        588i32
    } else if i == 69 {
        614i32
    } else if i == 70 {
        641i32
    } else if i == 71 {
        667i32
    } else if i == 72 {
        694i32
    } else if i == 73 {
        720i32
    } else if i == 74 {
        747i32
    } else if i == 75 {
        774i32
    } else if i == 76 {
        800i32
    } else if i == 77 {
        827i32
    } else if i == 78 {
        853i32
    } else if i == 79 {
        880i32
    } else if i == 80 {
        907i32
    } else if i == 81 {
        933i32
    } else if i == 82 {
        960i32
    } else if i == 83 {
        986i32
    } else if i == 84 {
        1013i32
    } else if i == 85 {
        1039i32
    } else {
        1066i32
    }
}

/// Facts the table search relies on: every significand in the table is
/// normalized (top bit set), the binary exponents are bounded, and
/// adjacent entries differ by 26 or 27 binary places (eight decimal
/// places), so one table step never jumps across the whole working
/// window of the digit generator.
pub proof fn lemma_pow10_table()
    ensures
        forall|i: int| 0 <= i < 87 ==> #[trigger] pow10_frac(i) >= 0x8000000000000000,
        forall|i: int| 0 <= i < 87 ==> -1220 <= #[trigger] pow10_exp(i) <= 1066,
        forall|i: int| 0 <= i < 86 ==> 26 <= pow10_exp(i + 1) - #[trigger] pow10_exp(i) <= 27,
{
    assert forall|i: int| 0 <= i < 87 implies #[trigger] pow10_frac(i) >= 0x8000000000000000 by {
        assert(pow10_frac(i) >= 0x8000000000000000);
    }
    assert forall|i: int| 0 <= i < 87 implies -1220 <= #[trigger] pow10_exp(i) <= 1066 by {
        assert(-1220 <= pow10_exp(i) <= 1066);
    }
    assert forall|i: int| 0 <= i < 86 implies 26 <= pow10_exp(i + 1) - #[trigger] pow10_exp(i) <= 27 by {
        assert(26 <= pow10_exp(i + 1) - pow10_exp(i) <= 27);
    }
}

/// The table is anchored at powers of ten that 64 bits represent
/// exactly: the entries for ten to the fourth, twelfth and twentieth
/// power hold those powers with no rounding at all.  The remaining
/// entries are the same constants rounded to the nearest 64-bit
/// significand.
pub proof fn lemma_pow10_table_anchors()
    ensures
        pow10_frac(44) as int == pow10(4) * pow2(50),
        pow10_exp(44) == -50,
        pow10_frac(45) as int == pow10(12) * pow2(24),
        pow10_exp(45) == -24,
        pow10_frac(46) as int * pow2(3) == pow10(20),
        pow10_exp(46) == 3,
{
    lemma_pow10_values();
    lemma2_to64();
    lemma2_to64_rest();
}

/// Find the table entry whose power of ten scales a value of binary
/// exponent `exp` into the digit generator's working window, walking from
/// an integer estimate of `-(exp + 87) * log10(2)`.  Writes the decimal
/// exponent of the chosen entry to `k`.
pub fn find_cachedpow10(exp: i32, k: &mut i32) -> (cp: FloatType)
    requires
        -1140 <= exp <= 960,
    ensures
        exists|i: int|
            0 <= i < 87 && cp.frac == pow10_frac(i) && cp.exp as int == pow10_exp(i)
                && *final(k) == FIRSTPOWER + 8 * i,
        EXPMIN <= exp + cp.exp + 64 <= EXPMAX,
        cp.frac >= 0x8000000000000000,
        -348 <= *final(k) <= 340,
{
    proof {
        lemma_pow10_table();
    }
    // -(exp + 87) * log10(2), truncated toward zero; the constant is
    // log10(2) in 0.53 fixed point, the value the binary64 constant of
    // the estimate holds.
    let v: i32 = -(exp + NPOWERS);
    let av: u64 = if v < 0 {
        (-v) as u64
    } else {
        v as u64
    };
    proof {
        assert(av <= 1053);
        assert(av * 2711437152599295 <= 1053 * 2711437152599295) by (nonlinear_arith)
            requires av <= 1053;
    }
    let prod: u64 = av * 2711437152599295u64;
    proof {
        assert(prod >> 53u64 <= 317) by (bit_vector)
            requires prod <= 1053 * 2711437152599295u64;
    }
    let q: u64 = prod >> 53u64;
    let approx: i32 = if v < 0 {
        -(q as i32)
    } else {
        q as i32
    };
    let start: usize = ((approx + 348) as usize) / 8;
    let mut idx: usize = start;
    proof {
        assert(idx <= 83);
    }
    let mut current: i32 = exp + pow10_exp_at(idx) + 64;
    while current < EXPMIN
        invariant
            start <= idx < 87,
            -1140 <= exp <= 960,
            current as int == exp + pow10_exp(idx as int) + 64,
            idx > start ==> current <= EXPMAX,
        decreases 87 - idx,
    {
        proof {
            lemma_pow10_table();
            if idx == 86 {
                assert(pow10_exp(86) == 1066);
                assert(false);
            }
        }
        idx = idx + 1;
        current = exp + pow10_exp_at(idx) + 64;
    }
    while current > EXPMAX
        invariant
            0 <= idx < 87,
            -1140 <= exp <= 960,
            current as int == exp + pow10_exp(idx as int) + 64,
            current >= EXPMIN,
        decreases idx,
    {
        proof {
            lemma_pow10_table();
            if idx == 0 {
                assert(pow10_exp(0) == -1220);
                assert(false);
            }
        }
        idx = idx - 1;
        current = exp + pow10_exp_at(idx) + 64;
    }
    *k = FIRSTPOWER + (idx as i32) * STEPPOWERS;
    let cp = FloatType { frac: pow10_frac_at(idx), exp: pow10_exp_at(idx) };
    proof {
        lemma_pow10_table();
        assert(0 <= idx as int && (idx as int) < 87 && cp.frac == pow10_frac(idx as int)
            && cp.exp as int == pow10_exp(idx as int) && *k == FIRSTPOWER + 8 * (idx as int));
    }
    cp
}

} // verus!
