//! The sRGB transfer function on channel bytes, in fixed point.
//!
//! A channel byte `c` stands for the sRGB value `x = c / 255`. Its
//! linear-light value is `x / 12.92` for `x <= 0.04045` and
//! `((x + 0.055) / 1.055)^2.4` above that. The library keeps this value as a
//! whole number of [`LINEAR_ONE`]-ths, rounded to the nearest one, so that
//! every later comparison of luminances and contrasts is exact.
//!
//! [`is_rounded_linear`] states the rounding in whole numbers, and
//! [`lemma_linear_is_rounded`] proves it of every entry of the table.

use vstd::prelude::*;

verus! {

/// The fixed-point scale: the linear-light value 1.0.
pub const LINEAR_ONE: u64 = 1_000_000_000_000;

/// Linear-light value of each channel byte, in units of `1 / LINEAR_ONE`.
pub const LINEAR: [u64; 256] = [
    0, 303_526_984, 607_053_967, 910_580_951,
    1_214_107_934, 1_517_634_918, 1_821_161_901, 2_124_688_885,
    2_428_215_868, 2_731_742_852, 3_035_269_835, 3_346_535_764,
    3_676_507_324, 4_024_717_018, 4_391_442_037, 4_776_953_481,
    5_181_516_702, 5_605_391_624, 6_048_833_023, 6_512_090_793,
    6_995_410_187, 7_499_032_043, 8_023_192_985, 8_568_125_618,
    9_134_058_702, 9_721_217_320, 10_329_823_030, 10_960_094_006,
    11_612_245_180, 12_286_488_357, 12_983_032_342, 13_702_083_047,
    14_443_843_596, 15_208_514_423, 15_996_293_366, 16_807_375_753,
    17_641_954_488, 18_500_220_128, 19_382_360_957, 20_288_563_057,
    21_219_010_376, 22_173_884_793, 23_153_366_178, 24_157_632_449,
    25_186_859_627, 26_241_221_895, 27_320_891_639, 28_426_039_504,
    29_556_834_438, 30_713_443_733, 31_896_033_073, 33_104_766_571,
    34_339_806_809, 35_601_314_875, 36_889_450_401, 38_204_371_595,
    39_546_235_277, 40_915_196_907, 42_311_410_621, 43_735_029_257,
    45_186_204_386, 46_665_086_337, 48_171_824_227, 49_706_565_984,
    51_269_458_374, 52_860_647_023, 54_480_276_442, 56_128_490_050,
    57_805_430_191, 59_511_238_163, 61_246_054_232, 63_010_017_653,
    64_803_266_693, 66_625_938_644, 68_478_169_844, 70_360_095_697,
    72_271_850_682, 74_213_568_380, 76_185_381_481, 78_187_421_805,
    80_219_820_314, 82_282_707_130, 84_376_211_544, 86_500_462_037,
    88_655_586_286, 90_841_711_183, 93_058_962_847, 95_307_466_631,
    97_587_347_142, 99_898_728_247, 102_241_733_088, 104_616_484_091,
    107_023_102_978, 109_461_710_778, 111_932_427_837, 114_435_373_827,
    116_970_667_759, 119_538_427_988, 122_138_772_230, 124_771_817_561,
    127_437_680_436, 130_136_476_690, 132_868_321_554, 135_633_329_655,
    138_431_615_032, 141_263_291_140, 144_128_470_858, 147_027_266_498,
    149_959_789_811, 152_926_151_996, 155_926_463_708, 158_960_835_061,
    162_029_375_639, 165_132_194_502, 168_269_400_190, 171_441_100_733,
    174_647_403_656, 177_888_415_984, 181_164_244_250, 184_474_994_500,
    187_820_772_301, 191_201_682_741, 194_617_830_442, 198_069_319_560,
    201_556_253_794, 205_078_736_390, 208_636_870_145, 212_230_757_414,
    215_860_500_114, 219_526_199_729, 223_227_957_317, 226_965_873_510,
    230_740_048_524, 234_550_582_161, 238_397_573_812, 242_281_122_466,
    246_201_326_708, 250_158_284_730, 254_152_094_331, 258_182_852_922,
    262_250_657_530, 266_355_604_803, 270_497_791_013, 274_677_312_060,
    278_894_263_477, 283_148_740_430, 287_440_837_727, 291_770_649_818,
    296_138_270_798, 300_543_794_416, 304_987_314_070, 309_468_922_818,
    313_988_713_376, 318_546_778_125, 323_143_209_113, 327_778_098_057,
    332_451_536_346, 337_163_615_048, 341_914_424_909, 346_704_056_355,
    351_532_599_500, 356_400_144_146, 361_306_779_784, 366_252_595_599,
    371_237_680_474, 376_262_122_991, 381_326_011_433, 386_429_433_787,
    391_572_477_750, 396_755_230_726, 401_977_779_832, 407_240_211_902,
    412_542_613_484, 417_885_070_848, 423_267_669_986, 428_690_496_614,
    434_153_636_175, 439_657_173_841, 445_201_194_516, 450_785_782_838,
    456_411_023_180, 462_076_999_654, 467_783_796_112, 473_531_496_148,
    479_320_183_101, 485_149_940_056, 491_020_849_848, 496_932_995_061,
    502_886_458_033, 508_881_320_855, 514_917_665_377, 520_995_573_204,
    527_115_125_706, 533_276_404_011, 539_479_489_012, 545_724_461_370,
    552_011_401_512, 558_340_389_634, 564_711_505_705, 571_124_829_465,
    577_580_440_430, 584_078_417_891, 590_618_840_919, 597_201_788_364,
    603_827_338_855, 610_495_570_808, 617_206_562_420, 623_960_391_675,
    630_757_136_346, 637_596_873_994, 644_479_681_971, 651_405_637_420,
    658_374_817_279, 665_387_298_282, 672_443_156_958, 679_542_469_633,
    686_685_312_435, 693_871_761_292, 701_101_891_933, 708_375_779_892,
    715_693_500_506, 723_055_128_922, 730_460_740_090, 737_910_408_773,
    745_404_209_540, 752_942_216_776, 760_524_504_675, 768_151_147_248,
    775_822_218_317, 783_537_791_526, 791_297_940_333, 799_102_738_014,
    806_952_257_669, 814_846_572_216, 822_785_754_396, 830_769_876_775,
    838_799_011_741, 846_873_231_510, 854_992_608_124, 863_157_213_454,
    871_367_119_199, 879_622_396_888, 887_923_117_882, 896_269_353_374,
    904_661_174_391, 913_098_651_793, 921_581_856_277, 930_110_858_375,
    938_685_728_458, 947_306_536_733, 955_973_353_249, 964_686_247_894,
    973_445_290_398, 982_250_550_333, 991_102_097_114, 1_000_000_000_000,
];

/// Linear-light value of the channel byte `c`, in units of `1 / LINEAR_ONE`.
pub open spec fn linear(c: u8) -> int {
    LINEAR[c as int] as int
}

/// The fifth power.
pub open spec fn pow5(x: int) -> int {
    x * x * x * x * x
}

/// The twelfth power.
pub open spec fn pow12(x: int) -> int {
    let x2 = x * x;
    let x4 = x2 * x2;
    x4 * x4 * x4
}

/// `t / LINEAR_ONE` is the linear-light value of the byte `c`, to within
/// half a unit.
///
/// The bytes up to 10 lie on the straight part, where the value is
/// `c / (255 * 12.92) = 5 c / 16473`. For the others the value is
/// `((c / 255 + 0.055) / 1.055)^2.4 = ((40 c + 561) / 10761)^(12 / 5)`, and
/// `t - 1/2 <= LINEAR_ONE * v <= t + 1/2` is stated of the fifth powers.
pub open spec fn is_rounded_linear(c: int, t: int) -> bool {
    if c <= 10 {
        -16473 <= 2 * (16473 * t - 5 * c * LINEAR_ONE) <= 16473
    } else {
        &&& t >= 1
        &&& pow5(2 * t - 1) * pow12(10761) <= pow5(2 * LINEAR_ONE) * pow12(40 * c + 561)
        &&& pow5(2 * LINEAR_ONE) * pow12(40 * c + 561) <= pow5(2 * t + 1) * pow12(10761)
    }
}

/// Looks up the linear-light value of a channel byte.
pub fn linear_level(c: u8) -> (t: u64)
    ensures
        t == linear(c),
        t <= LINEAR_ONE,
{
    LINEAR[c as usize]
}

/// The transfer function maps 0 to 0 and 255 to one, and never exceeds one.
pub proof fn lemma_linear_bounds(c: u8)
    ensures
        0 <= linear(c) <= LINEAR_ONE,
        linear(0) == 0,
        linear(255) == LINEAR_ONE,
{
}

/// A brighter channel byte has a strictly larger linear-light value.
pub proof fn lemma_linear_increasing(c: u8, d: u8)
    requires
        c < d,
    ensures
        linear(c) < linear(d),
{
}

/// Every entry of the table is the linear-light value of its byte, rounded
/// to the nearest unit.
pub proof fn lemma_linear_is_rounded(c: u8)
    ensures
        is_rounded_linear(c as int, linear(c)),
{
    if c < 16 {
        lemma_rounded_0(c);
    } else if c < 32 {
        lemma_rounded_1(c);
    } else if c < 48 {
        lemma_rounded_2(c);
    } else if c < 64 {
        lemma_rounded_3(c);
    } else if c < 80 {
        lemma_rounded_4(c);
    } else if c < 96 {
        lemma_rounded_5(c);
    } else if c < 112 {
        lemma_rounded_6(c);
    } else if c < 128 {
        lemma_rounded_7(c);
    } else if c < 144 {
        lemma_rounded_8(c);
    } else if c < 160 {
        lemma_rounded_9(c);
    } else if c < 176 {
        lemma_rounded_a(c);
    } else if c < 192 {
        lemma_rounded_b(c);
    } else if c < 208 {
        lemma_rounded_c(c);
    } else if c < 224 {
        lemma_rounded_d(c);
    } else if c < 240 {
        lemma_rounded_e(c);
    } else {
        lemma_rounded_f(c);
    }
}

/// The table entries of the bytes `0..=15` are rounded correctly.
proof fn lemma_rounded_0(c: u8)
    requires
        0 <= c <= 15,
    ensures
        is_rounded_linear(c as int, linear(c)),
{
    if c == 0 {
        assert(is_rounded_linear(0, 0)) by (nonlinear_arith);
    } else if c == 1 {
        assert(is_rounded_linear(1, 303_526_984)) by (nonlinear_arith);
    } else if c == 2 {
        assert(is_rounded_linear(2, 607_053_967)) by (nonlinear_arith);
    } else if c == 3 {
        assert(is_rounded_linear(3, 910_580_951)) by (nonlinear_arith);
    } else if c == 4 {
        assert(is_rounded_linear(4, 1_214_107_934)) by (nonlinear_arith);
    } else if c == 5 {
        assert(is_rounded_linear(5, 1_517_634_918)) by (nonlinear_arith);
    } else if c == 6 {
        assert(is_rounded_linear(6, 1_821_161_901)) by (nonlinear_arith);
    } else if c == 7 {
        assert(is_rounded_linear(7, 2_124_688_885)) by (nonlinear_arith);
    } else if c == 8 {
        assert(is_rounded_linear(8, 2_428_215_868)) by (nonlinear_arith);
    } else if c == 9 {
        assert(is_rounded_linear(9, 2_731_742_852)) by (nonlinear_arith);
    } else if c == 10 {
        assert(is_rounded_linear(10, 3_035_269_835)) by (nonlinear_arith);
    } else if c == 11 {
        assert(is_rounded_linear(11, 3_346_535_764)) by (nonlinear_arith);
    } else if c == 12 {
        assert(is_rounded_linear(12, 3_676_507_324)) by (nonlinear_arith);
    } else if c == 13 {
        assert(is_rounded_linear(13, 4_024_717_018)) by (nonlinear_arith);
    } else if c == 14 {
        assert(is_rounded_linear(14, 4_391_442_037)) by (nonlinear_arith);
    } else {
        assert(is_rounded_linear(15, 4_776_953_481)) by (nonlinear_arith);
    }
}

/// The table entries of the bytes `16..=31` are rounded correctly.
proof fn lemma_rounded_1(c: u8)
    requires
        16 <= c <= 31,
    ensures
        is_rounded_linear(c as int, linear(c)),
{
    if c == 16 {
        assert(is_rounded_linear(16, 5_181_516_702)) by (nonlinear_arith);
    } else if c == 17 {
        assert(is_rounded_linear(17, 5_605_391_624)) by (nonlinear_arith);
    } else if c == 18 {
        assert(is_rounded_linear(18, 6_048_833_023)) by (nonlinear_arith);
    } else if c == 19 {
        assert(is_rounded_linear(19, 6_512_090_793)) by (nonlinear_arith);
    } else if c == 20 {
        assert(is_rounded_linear(20, 6_995_410_187)) by (nonlinear_arith);
    } else if c == 21 {
        assert(is_rounded_linear(21, 7_499_032_043)) by (nonlinear_arith);
    } else if c == 22 {
        assert(is_rounded_linear(22, 8_023_192_985)) by (nonlinear_arith);
    } else if c == 23 {
        assert(is_rounded_linear(23, 8_568_125_618)) by (nonlinear_arith);
    } else if c == 24 {
        assert(is_rounded_linear(24, 9_134_058_702)) by (nonlinear_arith);
    } else if c == 25 {
        assert(is_rounded_linear(25, 9_721_217_320)) by (nonlinear_arith);
    } else if c == 26 {
        assert(is_rounded_linear(26, 10_329_823_030)) by (nonlinear_arith);
    } else if c == 27 {
        assert(is_rounded_linear(27, 10_960_094_006)) by (nonlinear_arith);
    } else if c == 28 {
        assert(is_rounded_linear(28, 11_612_245_180)) by (nonlinear_arith);
    } else if c == 29 {
        assert(is_rounded_linear(29, 12_286_488_357)) by (nonlinear_arith);
    } else if c == 30 {
        assert(is_rounded_linear(30, 12_983_032_342)) by (nonlinear_arith);
    } else {
        assert(is_rounded_linear(31, 13_702_083_047)) by (nonlinear_arith);
    }
}

/// The table entries of the bytes `32..=47` are rounded correctly.
proof fn lemma_rounded_2(c: u8)
    requires
        32 <= c <= 47,
    ensures
        is_rounded_linear(c as int, linear(c)),
{
    if c == 32 {
        assert(is_rounded_linear(32, 14_443_843_596)) by (nonlinear_arith);
    } else if c == 33 {
        assert(is_rounded_linear(33, 15_208_514_423)) by (nonlinear_arith);
    } else if c == 34 {
        assert(is_rounded_linear(34, 15_996_293_366)) by (nonlinear_arith);
    } else if c == 35 {
        assert(is_rounded_linear(35, 16_807_375_753)) by (nonlinear_arith);
    } else if c == 36 {
        assert(is_rounded_linear(36, 17_641_954_488)) by (nonlinear_arith);
    } else if c == 37 {
        assert(is_rounded_linear(37, 18_500_220_128)) by (nonlinear_arith);
    } else if c == 38 {
        assert(is_rounded_linear(38, 19_382_360_957)) by (nonlinear_arith);
    } else if c == 39 {
        assert(is_rounded_linear(39, 20_288_563_057)) by (nonlinear_arith);
    } else if c == 40 {
        assert(is_rounded_linear(40, 21_219_010_376)) by (nonlinear_arith);
    } else if c == 41 {
        assert(is_rounded_linear(41, 22_173_884_793)) by (nonlinear_arith);
    } else if c == 42 {
        assert(is_rounded_linear(42, 23_153_366_178)) by (nonlinear_arith);
    } else if c == 43 {
        assert(is_rounded_linear(43, 24_157_632_449)) by (nonlinear_arith);
    } else if c == 44 {
        assert(is_rounded_linear(44, 25_186_859_627)) by (nonlinear_arith);
    } else if c == 45 {
        assert(is_rounded_linear(45, 26_241_221_895)) by (nonlinear_arith);
    } else if c == 46 {
        assert(is_rounded_linear(46, 27_320_891_639)) by (nonlinear_arith);
    } else {
        assert(is_rounded_linear(47, 28_426_039_504)) by (nonlinear_arith);
    }
}

/// The table entries of the bytes `48..=63` are rounded correctly.
proof fn lemma_rounded_3(c: u8)
    requires
        48 <= c <= 63,
    ensures
        is_rounded_linear(c as int, linear(c)),
{
    if c == 48 {
        assert(is_rounded_linear(48, 29_556_834_438)) by (nonlinear_arith);
    } else if c == 49 {
        assert(is_rounded_linear(49, 30_713_443_733)) by (nonlinear_arith);
    } else if c == 50 {
        assert(is_rounded_linear(50, 31_896_033_073)) by (nonlinear_arith);
    } else if c == 51 {
        assert(is_rounded_linear(51, 33_104_766_571)) by (nonlinear_arith);
    } else if c == 52 {
        assert(is_rounded_linear(52, 34_339_806_809)) by (nonlinear_arith);
    } else if c == 53 {
        assert(is_rounded_linear(53, 35_601_314_875)) by (nonlinear_arith);
    } else if c == 54 {
        assert(is_rounded_linear(54, 36_889_450_401)) by (nonlinear_arith);
    } else if c == 55 {
        assert(is_rounded_linear(55, 38_204_371_595)) by (nonlinear_arith);
    } else if c == 56 {
        assert(is_rounded_linear(56, 39_546_235_277)) by (nonlinear_arith);
    } else if c == 57 {
        assert(is_rounded_linear(57, 40_915_196_907)) by (nonlinear_arith);
    } else if c == 58 {
        assert(is_rounded_linear(58, 42_311_410_621)) by (nonlinear_arith);
    } else if c == 59 {
        assert(is_rounded_linear(59, 43_735_029_257)) by (nonlinear_arith);
    } else if c == 60 {
        assert(is_rounded_linear(60, 45_186_204_386)) by (nonlinear_arith);
    } else if c == 61 {
        assert(is_rounded_linear(61, 46_665_086_337)) by (nonlinear_arith);
    } else if c == 62 {
        assert(is_rounded_linear(62, 48_171_824_227)) by (nonlinear_arith);
    } else {
        assert(is_rounded_linear(63, 49_706_565_984)) by (nonlinear_arith);
    }
}

/// The table entries of the bytes `64..=79` are rounded correctly.
proof fn lemma_rounded_4(c: u8)
    requires
        64 <= c <= 79,
    ensures
        is_rounded_linear(c as int, linear(c)),
{
    if c == 64 {
        assert(is_rounded_linear(64, 51_269_458_374)) by (nonlinear_arith);
    } else if c == 65 {
        assert(is_rounded_linear(65, 52_860_647_023)) by (nonlinear_arith);
    } else if c == 66 {
        assert(is_rounded_linear(66, 54_480_276_442)) by (nonlinear_arith);
    } else if c == 67 {
        assert(is_rounded_linear(67, 56_128_490_050)) by (nonlinear_arith);
    } else if c == 68 {
        assert(is_rounded_linear(68, 57_805_430_191)) by (nonlinear_arith);
    } else if c == 69 {
        assert(is_rounded_linear(69, 59_511_238_163)) by (nonlinear_arith);
    } else if c == 70 {
        assert(is_rounded_linear(70, 61_246_054_232)) by (nonlinear_arith);
    } else if c == 71 {
        assert(is_rounded_linear(71, 63_010_017_653)) by (nonlinear_arith);
    } else if c == 72 {
        assert(is_rounded_linear(72, 64_803_266_693)) by (nonlinear_arith);
    } else if c == 73 {
        assert(is_rounded_linear(73, 66_625_938_644)) by (nonlinear_arith);
    } else if c == 74 {
        assert(is_rounded_linear(74, 68_478_169_844)) by (nonlinear_arith);
    } else if c == 75 {
        assert(is_rounded_linear(75, 70_360_095_697)) by (nonlinear_arith);
    } else if c == 76 {
        assert(is_rounded_linear(76, 72_271_850_682)) by (nonlinear_arith);
    } else if c == 77 {
        assert(is_rounded_linear(77, 74_213_568_380)) by (nonlinear_arith);
    } else if c == 78 {
        assert(is_rounded_linear(78, 76_185_381_481)) by (nonlinear_arith);
    } else {
        assert(is_rounded_linear(79, 78_187_421_805)) by (nonlinear_arith);
    }
}

/// The table entries of the bytes `80..=95` are rounded correctly.
proof fn lemma_rounded_5(c: u8)
    requires
        80 <= c <= 95,
    ensures
        is_rounded_linear(c as int, linear(c)),
{
    if c == 80 {
        assert(is_rounded_linear(80, 80_219_820_314)) by (nonlinear_arith);
    } else if c == 81 {
        assert(is_rounded_linear(81, 82_282_707_130)) by (nonlinear_arith);
    } else if c == 82 {
        assert(is_rounded_linear(82, 84_376_211_544)) by (nonlinear_arith);
    } else if c == 83 {
        assert(is_rounded_linear(83, 86_500_462_037)) by (nonlinear_arith);
    } else if c == 84 {
        assert(is_rounded_linear(84, 88_655_586_286)) by (nonlinear_arith);
    } else if c == 85 {
        assert(is_rounded_linear(85, 90_841_711_183)) by (nonlinear_arith);
    } else if c == 86 {
        assert(is_rounded_linear(86, 93_058_962_847)) by (nonlinear_arith);
    } else if c == 87 {
        assert(is_rounded_linear(87, 95_307_466_631)) by (nonlinear_arith);
    } else if c == 88 {
        assert(is_rounded_linear(88, 97_587_347_142)) by (nonlinear_arith);
    } else if c == 89 {
        assert(is_rounded_linear(89, 99_898_728_247)) by (nonlinear_arith);
    } else if c == 90 {
        assert(is_rounded_linear(90, 102_241_733_088)) by (nonlinear_arith);
    } else if c == 91 {
        assert(is_rounded_linear(91, 104_616_484_091)) by (nonlinear_arith);
    } else if c == 92 {
        assert(is_rounded_linear(92, 107_023_102_978)) by (nonlinear_arith);
    } else if c == 93 {
        assert(is_rounded_linear(93, 109_461_710_778)) by (nonlinear_arith);
    } else if c == 94 {
        assert(is_rounded_linear(94, 111_932_427_837)) by (nonlinear_arith);
    } else {
        assert(is_rounded_linear(95, 114_435_373_827)) by (nonlinear_arith);
    }
}

/// The table entries of the bytes `96..=111` are rounded correctly.
proof fn lemma_rounded_6(c: u8)
    requires
        96 <= c <= 111,
    ensures
        is_rounded_linear(c as int, linear(c)),
{
    if c == 96 {
        assert(is_rounded_linear(96, 116_970_667_759)) by (nonlinear_arith);
    } else if c == 97 {
        assert(is_rounded_linear(97, 119_538_427_988)) by (nonlinear_arith);
    } else if c == 98 {
        assert(is_rounded_linear(98, 122_138_772_230)) by (nonlinear_arith);
    } else if c == 99 {
        assert(is_rounded_linear(99, 124_771_817_561)) by (nonlinear_arith);
    } else if c == 100 {
        assert(is_rounded_linear(100, 127_437_680_436)) by (nonlinear_arith);
    } else if c == 101 {
        assert(is_rounded_linear(101, 130_136_476_690)) by (nonlinear_arith);
    } else if c == 102 {
        assert(is_rounded_linear(102, 132_868_321_554)) by (nonlinear_arith);
    } else if c == 103 {
        assert(is_rounded_linear(103, 135_633_329_655)) by (nonlinear_arith);
    } else if c == 104 {
        assert(is_rounded_linear(104, 138_431_615_032)) by (nonlinear_arith);
    } else if c == 105 {
        assert(is_rounded_linear(105, 141_263_291_140)) by (nonlinear_arith);
    } else if c == 106 {
        assert(is_rounded_linear(106, 144_128_470_858)) by (nonlinear_arith);
    } else if c == 107 {
        assert(is_rounded_linear(107, 147_027_266_498)) by (nonlinear_arith);
    } else if c == 108 {
        assert(is_rounded_linear(108, 149_959_789_811)) by (nonlinear_arith);
    } else if c == 109 {
        assert(is_rounded_linear(109, 152_926_151_996)) by (nonlinear_arith);
    } else if c == 110 {
        assert(is_rounded_linear(110, 155_926_463_708)) by (nonlinear_arith);
    } else {
        assert(is_rounded_linear(111, 158_960_835_061)) by (nonlinear_arith);
    }
}

/// The table entries of the bytes `112..=127` are rounded correctly.
proof fn lemma_rounded_7(c: u8)
    requires
        112 <= c <= 127,
    ensures
        is_rounded_linear(c as int, linear(c)),
{
    if c == 112 {
        assert(is_rounded_linear(112, 162_029_375_639)) by (nonlinear_arith);
    } else if c == 113 {
        assert(is_rounded_linear(113, 165_132_194_502)) by (nonlinear_arith);
    } else if c == 114 {
        assert(is_rounded_linear(114, 168_269_400_190)) by (nonlinear_arith);
    } else if c == 115 {
        assert(is_rounded_linear(115, 171_441_100_733)) by (nonlinear_arith);
    } else if c == 116 {
        assert(is_rounded_linear(116, 174_647_403_656)) by (nonlinear_arith);
    } else if c == 117 {
        assert(is_rounded_linear(117, 177_888_415_984)) by (nonlinear_arith);
    } else if c == 118 {
        assert(is_rounded_linear(118, 181_164_244_250)) by (nonlinear_arith);
    } else if c == 119 {
        assert(is_rounded_linear(119, 184_474_994_500)) by (nonlinear_arith);
    } else if c == 120 {
        assert(is_rounded_linear(120, 187_820_772_301)) by (nonlinear_arith);
    } else if c == 121 {
        assert(is_rounded_linear(121, 191_201_682_741)) by (nonlinear_arith);
    } else if c == 122 {
        assert(is_rounded_linear(122, 194_617_830_442)) by (nonlinear_arith);
    } else if c == 123 {
        assert(is_rounded_linear(123, 198_069_319_560)) by (nonlinear_arith);
    } else if c == 124 {
        assert(is_rounded_linear(124, 201_556_253_794)) by (nonlinear_arith);
    } else if c == 125 {
        assert(is_rounded_linear(125, 205_078_736_390)) by (nonlinear_arith);
    } else if c == 126 {
        assert(is_rounded_linear(126, 208_636_870_145)) by (nonlinear_arith);
    } else {
        assert(is_rounded_linear(127, 212_230_757_414)) by (nonlinear_arith);
    }
}

/// The table entries of the bytes `128..=143` are rounded correctly.
proof fn lemma_rounded_8(c: u8)
    requires
        128 <= c <= 143,
    ensures
        is_rounded_linear(c as int, linear(c)),
{
    if c == 128 {
        assert(is_rounded_linear(128, 215_860_500_114)) by (nonlinear_arith);
    } else if c == 129 {
        assert(is_rounded_linear(129, 219_526_199_729)) by (nonlinear_arith);
    } else if c == 130 {
        assert(is_rounded_linear(130, 223_227_957_317)) by (nonlinear_arith);
    } else if c == 131 {
        assert(is_rounded_linear(131, 226_965_873_510)) by (nonlinear_arith);
    } else if c == 132 {
        assert(is_rounded_linear(132, 230_740_048_524)) by (nonlinear_arith);
    } else if c == 133 {
        assert(is_rounded_linear(133, 234_550_582_161)) by (nonlinear_arith);
    } else if c == 134 {
        assert(is_rounded_linear(134, 238_397_573_812)) by (nonlinear_arith);
    } else if c == 135 {
        assert(is_rounded_linear(135, 242_281_122_466)) by (nonlinear_arith);
    } else if c == 136 {
        assert(is_rounded_linear(136, 246_201_326_708)) by (nonlinear_arith);
    } else if c == 137 {
        assert(is_rounded_linear(137, 250_158_284_730)) by (nonlinear_arith);
    } else if c == 138 {
        assert(is_rounded_linear(138, 254_152_094_331)) by (nonlinear_arith);
    } else if c == 139 {
        assert(is_rounded_linear(139, 258_182_852_922)) by (nonlinear_arith);
    } else if c == 140 {
        assert(is_rounded_linear(140, 262_250_657_530)) by (nonlinear_arith);
    } else if c == 141 {
        assert(is_rounded_linear(141, 266_355_604_803)) by (nonlinear_arith);
    } else if c == 142 {
        assert(is_rounded_linear(142, 270_497_791_013)) by (nonlinear_arith);
    } else {
        assert(is_rounded_linear(143, 274_677_312_060)) by (nonlinear_arith);
    }
}

/// The table entries of the bytes `144..=159` are rounded correctly.
proof fn lemma_rounded_9(c: u8)
    requires
        144 <= c <= 159,
    ensures
        is_rounded_linear(c as int, linear(c)),
{
    if c == 144 {
        assert(is_rounded_linear(144, 278_894_263_477)) by (nonlinear_arith);
    } else if c == 145 {
        assert(is_rounded_linear(145, 283_148_740_430)) by (nonlinear_arith);
    } else if c == 146 {
        assert(is_rounded_linear(146, 287_440_837_727)) by (nonlinear_arith);
    } else if c == 147 {
        assert(is_rounded_linear(147, 291_770_649_818)) by (nonlinear_arith);
    } else if c == 148 {
        assert(is_rounded_linear(148, 296_138_270_798)) by (nonlinear_arith);
    } else if c == 149 {
        assert(is_rounded_linear(149, 300_543_794_416)) by (nonlinear_arith);
    } else if c == 150 {
        assert(is_rounded_linear(150, 304_987_314_070)) by (nonlinear_arith);
    } else if c == 151 {
        assert(is_rounded_linear(151, 309_468_922_818)) by (nonlinear_arith);
    } else if c == 152 {
        assert(is_rounded_linear(152, 313_988_713_376)) by (nonlinear_arith);
    } else if c == 153 {
        assert(is_rounded_linear(153, 318_546_778_125)) by (nonlinear_arith);
    } else if c == 154 {
        assert(is_rounded_linear(154, 323_143_209_113)) by (nonlinear_arith);
    } else if c == 155 {
        assert(is_rounded_linear(155, 327_778_098_057)) by (nonlinear_arith);
    } else if c == 156 {
        assert(is_rounded_linear(156, 332_451_536_346)) by (nonlinear_arith);
    } else if c == 157 {
        assert(is_rounded_linear(157, 337_163_615_048)) by (nonlinear_arith);
    } else if c == 158 {
        assert(is_rounded_linear(158, 341_914_424_909)) by (nonlinear_arith);
    } else {
        assert(is_rounded_linear(159, 346_704_056_355)) by (nonlinear_arith);
    }
}

/// The table entries of the bytes `160..=175` are rounded correctly.
proof fn lemma_rounded_a(c: u8)
    requires
        160 <= c <= 175,
    ensures
        is_rounded_linear(c as int, linear(c)),
{
    if c == 160 {
        assert(is_rounded_linear(160, 351_532_599_500)) by (nonlinear_arith);
    } else if c == 161 {
        assert(is_rounded_linear(161, 356_400_144_146)) by (nonlinear_arith);
    } else if c == 162 {
        assert(is_rounded_linear(162, 361_306_779_784)) by (nonlinear_arith);
    } else if c == 163 {
        assert(is_rounded_linear(163, 366_252_595_599)) by (nonlinear_arith);
    } else if c == 164 {
        assert(is_rounded_linear(164, 371_237_680_474)) by (nonlinear_arith);
    } else if c == 165 {
        assert(is_rounded_linear(165, 376_262_122_991)) by (nonlinear_arith);
    } else if c == 166 {
        assert(is_rounded_linear(166, 381_326_011_433)) by (nonlinear_arith);
    } else if c == 167 {
        assert(is_rounded_linear(167, 386_429_433_787)) by (nonlinear_arith);
    } else if c == 168 {
        assert(is_rounded_linear(168, 391_572_477_750)) by (nonlinear_arith);
    } else if c == 169 {
        assert(is_rounded_linear(169, 396_755_230_726)) by (nonlinear_arith);
    } else if c == 170 {
        assert(is_rounded_linear(170, 401_977_779_832)) by (nonlinear_arith);
    } else if c == 171 {
        assert(is_rounded_linear(171, 407_240_211_902)) by (nonlinear_arith);
    } else if c == 172 {
        assert(is_rounded_linear(172, 412_542_613_484)) by (nonlinear_arith);
    } else if c == 173 {
        assert(is_rounded_linear(173, 417_885_070_848)) by (nonlinear_arith);
    } else if c == 174 {
        assert(is_rounded_linear(174, 423_267_669_986)) by (nonlinear_arith);
    } else {
        assert(is_rounded_linear(175, 428_690_496_614)) by (nonlinear_arith);
    }
}

/// The table entries of the bytes `176..=191` are rounded correctly.
proof fn lemma_rounded_b(c: u8)
    requires
        176 <= c <= 191,
    ensures
        is_rounded_linear(c as int, linear(c)),
{
    if c == 176 {
        assert(is_rounded_linear(176, 434_153_636_175)) by (nonlinear_arith);
    } else if c == 177 {
        assert(is_rounded_linear(177, 439_657_173_841)) by (nonlinear_arith);
    } else if c == 178 {
        assert(is_rounded_linear(178, 445_201_194_516)) by (nonlinear_arith);
    } else if c == 179 {
        assert(is_rounded_linear(179, 450_785_782_838)) by (nonlinear_arith);
    } else if c == 180 {
        assert(is_rounded_linear(180, 456_411_023_180)) by (nonlinear_arith);
    } else if c == 181 {
        assert(is_rounded_linear(181, 462_076_999_654)) by (nonlinear_arith);
    } else if c == 182 {
        assert(is_rounded_linear(182, 467_783_796_112)) by (nonlinear_arith);
    } else if c == 183 {
        assert(is_rounded_linear(183, 473_531_496_148)) by (nonlinear_arith);
    } else if c == 184 {
        assert(is_rounded_linear(184, 479_320_183_101)) by (nonlinear_arith);
    } else if c == 185 {
        assert(is_rounded_linear(185, 485_149_940_056)) by (nonlinear_arith);
    } else if c == 186 {
        assert(is_rounded_linear(186, 491_020_849_848)) by (nonlinear_arith);
    } else if c == 187 {
        assert(is_rounded_linear(187, 496_932_995_061)) by (nonlinear_arith);
    } else if c == 188 {
        assert(is_rounded_linear(188, 502_886_458_033)) by (nonlinear_arith);
    } else if c == 189 {
        assert(is_rounded_linear(189, 508_881_320_855)) by (nonlinear_arith);
    } else if c == 190 {
        assert(is_rounded_linear(190, 514_917_665_377)) by (nonlinear_arith);
    } else {
        assert(is_rounded_linear(191, 520_995_573_204)) by (nonlinear_arith);
    }
}

/// The table entries of the bytes `192..=207` are rounded correctly.
proof fn lemma_rounded_c(c: u8)
    requires
        192 <= c <= 207,
    ensures
        is_rounded_linear(c as int, linear(c)),
{
    if c == 192 {
        assert(is_rounded_linear(192, 527_115_125_706)) by (nonlinear_arith);
    } else if c == 193 {
        assert(is_rounded_linear(193, 533_276_404_011)) by (nonlinear_arith);
    } else if c == 194 {
        assert(is_rounded_linear(194, 539_479_489_012)) by (nonlinear_arith);
    } else if c == 195 {
        assert(is_rounded_linear(195, 545_724_461_370)) by (nonlinear_arith);
    } else if c == 196 {
        assert(is_rounded_linear(196, 552_011_401_512)) by (nonlinear_arith);
    } else if c == 197 {
        assert(is_rounded_linear(197, 558_340_389_634)) by (nonlinear_arith);
    } else if c == 198 {
        assert(is_rounded_linear(198, 564_711_505_705)) by (nonlinear_arith);
    } else if c == 199 {
        assert(is_rounded_linear(199, 571_124_829_465)) by (nonlinear_arith);
    } else if c == 200 {
        assert(is_rounded_linear(200, 577_580_440_430)) by (nonlinear_arith);
    } else if c == 201 {
        assert(is_rounded_linear(201, 584_078_417_891)) by (nonlinear_arith);
    } else if c == 202 {
        assert(is_rounded_linear(202, 590_618_840_919)) by (nonlinear_arith);
    } else if c == 203 {
        assert(is_rounded_linear(203, 597_201_788_364)) by (nonlinear_arith);
    } else if c == 204 {
        assert(is_rounded_linear(204, 603_827_338_855)) by (nonlinear_arith);
    } else if c == 205 {
        assert(is_rounded_linear(205, 610_495_570_808)) by (nonlinear_arith);
    } else if c == 206 {
        assert(is_rounded_linear(206, 617_206_562_420)) by (nonlinear_arith);
    } else {
        assert(is_rounded_linear(207, 623_960_391_675)) by (nonlinear_arith);
    }
}

/// The table entries of the bytes `208..=223` are rounded correctly.
proof fn lemma_rounded_d(c: u8)
    requires
        208 <= c <= 223,
    ensures
        is_rounded_linear(c as int, linear(c)),
{
    if c == 208 {
        assert(is_rounded_linear(208, 630_757_136_346)) by (nonlinear_arith);
    } else if c == 209 {
        assert(is_rounded_linear(209, 637_596_873_994)) by (nonlinear_arith);
    } else if c == 210 {
        assert(is_rounded_linear(210, 644_479_681_971)) by (nonlinear_arith);
    } else if c == 211 {
        assert(is_rounded_linear(211, 651_405_637_420)) by (nonlinear_arith);
    } else if c == 212 {
        assert(is_rounded_linear(212, 658_374_817_279)) by (nonlinear_arith);
    } else if c == 213 {
        assert(is_rounded_linear(213, 665_387_298_282)) by (nonlinear_arith);
    } else if c == 214 {
        assert(is_rounded_linear(214, 672_443_156_958)) by (nonlinear_arith);
    } else if c == 215 {
        assert(is_rounded_linear(215, 679_542_469_633)) by (nonlinear_arith);
    } else if c == 216 {
        assert(is_rounded_linear(216, 686_685_312_435)) by (nonlinear_arith);
    } else if c == 217 {
        assert(is_rounded_linear(217, 693_871_761_292)) by (nonlinear_arith);
    } else if c == 218 {
        assert(is_rounded_linear(218, 701_101_891_933)) by (nonlinear_arith);
    } else if c == 219 {
        assert(is_rounded_linear(219, 708_375_779_892)) by (nonlinear_arith);
    } else if c == 220 {
        assert(is_rounded_linear(220, 715_693_500_506)) by (nonlinear_arith);
    } else if c == 221 {
        assert(is_rounded_linear(221, 723_055_128_922)) by (nonlinear_arith);
    } else if c == 222 {
        assert(is_rounded_linear(222, 730_460_740_090)) by (nonlinear_arith);
    } else {
        assert(is_rounded_linear(223, 737_910_408_773)) by (nonlinear_arith);
    }
}

/// The table entries of the bytes `224..=239` are rounded correctly.
proof fn lemma_rounded_e(c: u8)
    requires
        224 <= c <= 239,
    ensures
        is_rounded_linear(c as int, linear(c)),
{
    if c == 224 {
        assert(is_rounded_linear(224, 745_404_209_540)) by (nonlinear_arith);
    } else if c == 225 {
        assert(is_rounded_linear(225, 752_942_216_776)) by (nonlinear_arith);
    } else if c == 226 {
        assert(is_rounded_linear(226, 760_524_504_675)) by (nonlinear_arith);
    } else if c == 227 {
        assert(is_rounded_linear(227, 768_151_147_248)) by (nonlinear_arith);
    } else if c == 228 {
        assert(is_rounded_linear(228, 775_822_218_317)) by (nonlinear_arith);
    } else if c == 229 {
        assert(is_rounded_linear(229, 783_537_791_526)) by (nonlinear_arith);
    } else if c == 230 {
        assert(is_rounded_linear(230, 791_297_940_333)) by (nonlinear_arith);
    } else if c == 231 {
        assert(is_rounded_linear(231, 799_102_738_014)) by (nonlinear_arith);
    } else if c == 232 {
        assert(is_rounded_linear(232, 806_952_257_669)) by (nonlinear_arith);
    } else if c == 233 {
        assert(is_rounded_linear(233, 814_846_572_216)) by (nonlinear_arith);
    } else if c == 234 {
        assert(is_rounded_linear(234, 822_785_754_396)) by (nonlinear_arith);
    } else if c == 235 {
        assert(is_rounded_linear(235, 830_769_876_775)) by (nonlinear_arith);
    } else if c == 236 {
        assert(is_rounded_linear(236, 838_799_011_741)) by (nonlinear_arith);
    } else if c == 237 {
        assert(is_rounded_linear(237, 846_873_231_510)) by (nonlinear_arith);
    } else if c == 238 {
        assert(is_rounded_linear(238, 854_992_608_124)) by (nonlinear_arith);
    } else {
        assert(is_rounded_linear(239, 863_157_213_454)) by (nonlinear_arith);
    }
}

/// The table entries of the bytes `240..=255` are rounded correctly.
proof fn lemma_rounded_f(c: u8)
    requires
        240 <= c <= 255,
    ensures
        is_rounded_linear(c as int, linear(c)),
{
    if c == 240 {
        assert(is_rounded_linear(240, 871_367_119_199)) by (nonlinear_arith);
    } else if c == 241 {
        assert(is_rounded_linear(241, 879_622_396_888)) by (nonlinear_arith);
    } else if c == 242 {
        assert(is_rounded_linear(242, 887_923_117_882)) by (nonlinear_arith);
    } else if c == 243 {
        assert(is_rounded_linear(243, 896_269_353_374)) by (nonlinear_arith);
    } else if c == 244 {
        assert(is_rounded_linear(244, 904_661_174_391)) by (nonlinear_arith);
    } else if c == 245 {
        assert(is_rounded_linear(245, 913_098_651_793)) by (nonlinear_arith);
    } else if c == 246 {
        assert(is_rounded_linear(246, 921_581_856_277)) by (nonlinear_arith);
    } else if c == 247 {
        assert(is_rounded_linear(247, 930_110_858_375)) by (nonlinear_arith);
    } else if c == 248 {
        assert(is_rounded_linear(248, 938_685_728_458)) by (nonlinear_arith);
    } else if c == 249 {
        assert(is_rounded_linear(249, 947_306_536_733)) by (nonlinear_arith);
    } else if c == 250 {
        assert(is_rounded_linear(250, 955_973_353_249)) by (nonlinear_arith);
    } else if c == 251 {
        assert(is_rounded_linear(251, 964_686_247_894)) by (nonlinear_arith);
    } else if c == 252 {
        assert(is_rounded_linear(252, 973_445_290_398)) by (nonlinear_arith);
    } else if c == 253 {
        assert(is_rounded_linear(253, 982_250_550_333)) by (nonlinear_arith);
    } else if c == 254 {
        assert(is_rounded_linear(254, 991_102_097_114)) by (nonlinear_arith);
    } else {
        assert(is_rounded_linear(255, 1_000_000_000_000)) by (nonlinear_arith);
    }
}

} // verus!
