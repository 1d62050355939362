use lexical_core::constants::{FormattedSize, BUFFER_SIZE};
use lexical_core::float::{encode_exact, FloatKind, RoundingKind};
use lexical_core::lexer::{parse_complete, parse_partial, ErrorCode, ParseError};
use lexical_core::options::{OptionsError, ParseFloatOptions, WriteFloatOptions};
use lexical_core::parse::{parse_tokens, to_native};
use lexical_core::text::write_float;
use lexical_core::write::format_shortest;

fn f64_of(x: &[u8]) -> f64 {
    f64::from_bits(parse_complete(FloatKind::Binary64, x, &ParseFloatOptions::new()).unwrap())
}

fn f32_of(x: &[u8]) -> f32 {
    f32::from_bits(parse_complete(FloatKind::Binary32, x, &ParseFloatOptions::new()).unwrap() as u32)
}

fn f64_with(x: &[u8], rounding: RoundingKind) -> f64 {
    let options = ParseFloatOptions::builder().rounding(rounding).build().unwrap();
    f64::from_bits(parse_complete(FloatKind::Binary64, x, &options).unwrap())
}

fn shortest64(x: f64, radix: u32) -> (Vec<u8>, i64) {
    format_shortest(FloatKind::Binary64, x.to_bits(), radix)
}

#[test]
fn smallest_subnormal() {
    assert_eq!(f64_of(b"5e-324"), 5e-324);
    assert_eq!(f64_of(b"5e-324").to_bits(), 1);
    let bin = ParseFloatOptions::binary();
    assert_eq!(parse_complete(FloatKind::Binary64, b"1^-10000110010", &bin), Ok(1));
}

#[test]
fn halfway_below_smallest_subnormal_is_zero() {
    // 2^-1075 exactly, and the same in radix two.
    let bin = ParseFloatOptions::binary();
    assert_eq!(parse_complete(FloatKind::Binary64, b"1^-10000110011", &bin), Ok(0));
    assert_eq!(f64_of(b"2.4703282292062327208828439643411068618252990130716238221279284125033775363510437593264991818081799618989828234772285886546332835517796989819938739800539093906315035659515570226392290858392449105184435931802849936536152500319370457678249219365623669863658480757001585769269903706311928279558551332927834338409351978015531246597263579574622766465272827220056374006485499977096599470454020828166226237857393450736339007967761930577506740176324673600968951340535537458516661134223766678604162159680461914467291840300530057530849048765391711386591646239524912623653881879636239373280423891018672348497668235089863388587925628302755995657524455507255189313690836254779186948667994968324049705821028513185451396213837722826145437693412532098591327667236328125e-324"), 0.0);
    // Just above the halfway point rounds up to the smallest subnormal.
    assert_eq!(f64_of(b"2.4703282292062328e-324"), 5e-324);
}

#[test]
fn largest_finite_and_overflow() {
    assert_eq!(f64_of(b"1.7976931348623157e+308"), f64::MAX);
    assert_eq!(f64_of(b"1.7976931348623158e308"), f64::MAX);
    assert_eq!(f64_of(b"1.7976931348623159e308"), f64::INFINITY);
    assert_eq!(f32_of(b"3.4028235e38"), f32::MAX);
    assert_eq!(f32_of(b"3.4028236e38"), f32::INFINITY);
}

#[test]
fn seed_scenarios() {
    assert_eq!(f64_of(b"9007199254740993"), 9007199254740992.0);
    assert_eq!(f64_of(b"9007199254740995"), 9007199254740996.0);
    assert_eq!(f64_of(b"9223372036854776833"), 9223372036854777856.0);
    assert_eq!(f64_of(b"1e-323"), 1e-323);
    assert_eq!(f64_of(b"18294e304"), f64::INFINITY);
    assert_eq!(f32_of(b"16777217"), 16777216.0);
}

#[test]
fn glibc_long_input() {
    let mut s = String::from("0.");
    for _ in 0..307 {
        s.push('0');
    }
    s.push_str("22250738585072011360574097967091319759348195463516456480234261097248222220210769455165295239081350879141491589130396211068700864386945946455276572074078206217433799881410632673292535522868813721490129811224514518898490572223072852551331557550159143974763979834118019993239625482890171070818506906306666559949382757725720157630626906633326475653000092458883164330377797918696120494973903778297049050510806099407302629371289589500035837999672072543043602840788957717961509455167482434710307026091446215722898802581825451803257070188608721131280795122334262883686223215037756666225039825343359745688844239002654981983854879482922068947216898310996983658468140228542433306603398508864458040010349339704275671864433837704860378616227717385456230658746790140867233276367187499");
    assert_eq!(f64_of(s.as_bytes()), 2.225073858507201e-308);
}

#[test]
fn radix16_round_trip() {
    let x = 1.2345e10f64;
    let parse_opts = ParseFloatOptions::builder().radix(16).build().unwrap();
    let write_opts = WriteFloatOptions::builder().radix(16).build().unwrap();
    let written = write_float(FloatKind::Binary64, x.to_bits(), &write_opts);
    assert_eq!(written, b"2.DFD1C04^8".to_vec());
    let parsed = parse_complete(FloatKind::Binary64, &written, &parse_opts).unwrap();
    assert_eq!(parsed, x.to_bits());
}

#[test]
fn round_trip_many_radixes() {
    let values = [0.1f64, 1.0 / 3.0, 5e-324, f64::MAX, 2.2250738585072014e-308, 123456.789, 1e300];
    for radix in 2..=36u32 {
        let parse_opts = ParseFloatOptions::builder().radix(radix).build().unwrap();
        let write_opts = WriteFloatOptions::builder().radix(radix).build().unwrap();
        for &x in values.iter() {
            let written = write_float(FloatKind::Binary64, x.to_bits(), &write_opts);
            let parsed = parse_complete(FloatKind::Binary64, &written, &parse_opts);
            assert_eq!(parsed, Ok(x.to_bits()), "radix {} value {}", radix, x);
        }
    }
}

#[test]
fn shortest_digits() {
    assert_eq!(shortest64(0.1, 10), (vec![1], -1));
    assert_eq!(shortest64(1.2345e10, 10), (vec![1, 2, 3, 4, 5], 6));
    assert_eq!(shortest64(5e-324, 10), (vec![5], -324));
    assert_eq!(shortest64(f64::MAX, 10), (vec![1, 7, 9, 7, 6, 9, 3, 1, 3, 4, 8, 6, 2, 3, 1, 5, 7], 292));
    assert_eq!(shortest64(0.5, 2), (vec![1], -1));
    assert_eq!(shortest64(255.0, 16), (vec![15, 15], 0));
    assert_eq!(shortest64(1e-7, 10), (vec![1], -7));
    assert_eq!(format_shortest(FloatKind::Binary32, 0.1f32.to_bits() as u64, 10), (vec![1], -1));
}

#[test]
fn shortest_drops_no_digit() {
    let x = 1.2345678901234567f64;
    let (digits, e) = shortest64(x, 10);
    assert_eq!(digits.len(), 17);
    let shorter = digits[..digits.len() - 1].to_vec();
    let back = to_native(FloatKind::Binary64, &shorter, e + 1, 10, false, RoundingKind::NearestTiesEven);
    assert_ne!(back, x.to_bits());
    let full = to_native(FloatKind::Binary64, &digits, e, 10, false, RoundingKind::NearestTiesEven);
    assert_eq!(full, x.to_bits());
}

#[test]
fn ties_to_even_in_both_directions() {
    assert_eq!(f64_of(b"9007199254740993").to_bits() % 2, 0);
    assert_eq!(f64_of(b"9007199254740995").to_bits() % 2, 0);
    assert_eq!(f32_of(b"1.000000178813934326171875"), 1.0000002);
}

#[test]
fn rounding_modes() {
    assert_eq!(f64_with(b"9007199254740993", RoundingKind::NearestTiesAwayFromZero), 9007199254740994.0);
    assert_eq!(f64_with(b"9007199254740993", RoundingKind::NearestTiesEven), 9007199254740992.0);
    assert_eq!(f64_with(b"9007199254740995", RoundingKind::TowardZero), 9007199254740994.0);
    assert_eq!(f64_with(b"9007199254740993", RoundingKind::TowardPositive), 9007199254740994.0);
    assert_eq!(f64_with(b"-9007199254740993", RoundingKind::TowardPositive), -9007199254740992.0);
    assert_eq!(f64_with(b"-9007199254740993", RoundingKind::TowardNegative), -9007199254740994.0);
    assert_eq!(f64_with(b"9007199254740993", RoundingKind::TowardNegative), 9007199254740992.0);
    assert_eq!(f64_with(b"9007199254740994", RoundingKind::TowardPositive), 9007199254740994.0);
}

#[test]
fn core_parser_on_digit_stream() {
    let bits = to_native(FloatKind::Binary64, &vec![1, 2, 3], 0, 10, false, RoundingKind::NearestTiesEven);
    assert_eq!(f64::from_bits(bits), 123.0);
    let bits = to_native(FloatKind::Binary64, &vec![1, 2, 3], -2, 10, true, RoundingKind::NearestTiesEven);
    assert_eq!(f64::from_bits(bits), -1.23);
    let bits = to_native(FloatKind::Binary64, &vec![0, 0], 5, 10, false, RoundingKind::NearestTiesEven);
    assert_eq!(bits, 0);
    let bits = to_native(FloatKind::Binary32, &vec![15, 15], 0, 16, false, RoundingKind::NearestTiesEven);
    assert_eq!(f32::from_bits(bits as u32), 255.0);
}

#[test]
fn huge_exponents_saturate() {
    assert_eq!(f64_of(b"1e99999999999999999999"), f64::INFINITY);
    assert_eq!(f64_of(b"1e-99999999999999999999"), 0.0);
    assert_eq!(f64_of(b"0e99999999999999999999"), 0.0);
    assert_eq!(f64_of(b"1e1201"), f64::INFINITY);
}

#[test]
fn lexer_errors() {
    let o = ParseFloatOptions::new();
    let err = |code, index| Err(ParseError { code, index });
    assert_eq!(parse_partial(FloatKind::Binary64, b"", &o), err(ErrorCode::EmptyMantissa, 0));
    assert_eq!(parse_partial(FloatKind::Binary64, b"-", &o), err(ErrorCode::EmptyMantissa, 1));
    assert_eq!(parse_partial(FloatKind::Binary64, b"1e+", &o), err(ErrorCode::EmptyExponent, 3));
    assert_eq!(
        parse_complete(FloatKind::Binary64, b"1.5x", &o),
        Err(ParseError { code: ErrorCode::InvalidDigit, index: 3 })
    );
    assert_eq!(parse_partial(FloatKind::Binary64, b"+1.5E2", &o), Ok((150.0f64.to_bits(), 6)));
}

#[test]
fn options_errors() {
    assert_eq!(ParseFloatOptions::builder().radix(1).build(), Err(OptionsError::InvalidRadix));
    assert_eq!(ParseFloatOptions::builder().radix(37).build(), Err(OptionsError::InvalidRadix));
    assert_eq!(ParseFloatOptions::builder().radix(16).exponent(b'a').build(), Err(OptionsError::InvalidExponent));
    assert_eq!(WriteFloatOptions::builder().radix(0).build(), Err(OptionsError::InvalidRadix));
    assert_eq!(WriteFloatOptions::builder().exponent(b'5').build(), Err(OptionsError::InvalidExponent));
    assert_eq!(ParseFloatOptions::builder().radix(16).build().unwrap().exponent, b'^');
    assert_eq!(ParseFloatOptions::builder().radix(14).build().unwrap().exponent, b'e');
}

#[test]
fn write_zero_and_sign() {
    let o = WriteFloatOptions::new();
    assert_eq!(write_float(FloatKind::Binary64, 0, &o), b"0".to_vec());
    assert_eq!(write_float(FloatKind::Binary64, (-0.0f64).to_bits(), &o), b"-0".to_vec());
    assert_eq!(write_float(FloatKind::Binary64, (-1.5f64).to_bits(), &o), b"-1.5e0".to_vec());
    assert_eq!(write_float(FloatKind::Binary64, 1e-7f64.to_bits(), &o), b"1e-7".to_vec());
    assert_eq!(write_float(FloatKind::Binary32, 1.2345e10f32.to_bits() as u64, &o), b"1.2345e10".to_vec());
}

#[test]
fn buffer_sizes() {
    assert_eq!(FloatKind::Binary64.formatted_size(), 256);
    assert_eq!(FloatKind::Binary32.formatted_size_decimal(), 64);
    assert_eq!(<u64 as FormattedSize>::FORMATTED_SIZE, 128);
    assert_eq!(<u64 as FormattedSize>::FORMATTED_SIZE_DECIMAL, 20);
    assert_eq!(<i128 as FormattedSize>::FORMATTED_SIZE_DECIMAL, 40);
    assert_eq!(BUFFER_SIZE, 256);
}

#[test]
fn tokenized_parse() {
    let bits = parse_tokens(FloatKind::Binary64, &vec![1, 2], &vec![3, 4, 5], 1, 10, false, RoundingKind::NearestTiesEven);
    assert_eq!(f64::from_bits(bits), 123.45);
    let bits = parse_tokens(FloatKind::Binary64, &vec![], &vec![5], 0, 10, true, RoundingKind::NearestTiesEven);
    assert_eq!(f64::from_bits(bits), -0.5);
    let bits = parse_tokens(FloatKind::Binary64, &vec![1], &vec![0], i64::MIN, 10, true, RoundingKind::NearestTiesEven);
    assert_eq!(f64::from_bits(bits), -0.0);
    assert!(f64::from_bits(bits).is_sign_negative());
}

#[test]
fn exact_integers() {
    assert_eq!(f64::from_bits(encode_exact(FloatKind::Binary64, 3, RoundingKind::TowardZero, false)), 3.0);
    assert_eq!(f64::from_bits(encode_exact(FloatKind::Binary64, (1u64 << 53) - 1, RoundingKind::NearestTiesEven, false)), 9007199254740991.0);
    assert_eq!(f32::from_bits(encode_exact(FloatKind::Binary32, 16777215, RoundingKind::NearestTiesEven, false) as u32), 16777215.0);
    assert_eq!(f64_of(b"9007199254740991"), 9007199254740991.0);
    assert_eq!(f64_of(b"1e15"), 1e15);
}

#[test]
fn round_trip_pseudo_random_bits() {
    let mut state: u64 = 0x9E37_79B9_7F4A_7C15;
    let mut next = || {
        state ^= state << 13;
        state ^= state >> 7;
        state ^= state << 17;
        state
    };
    for &radix in [10u32, 2, 7, 16, 36].iter() {
        let parse_opts = ParseFloatOptions::builder().radix(radix).build().unwrap();
        let write_opts = WriteFloatOptions::builder().radix(radix).build().unwrap();
        for _ in 0..60 {
            let bits64 = next() & 0x7FFF_FFFF_FFFF_FFFF;
            if bits64 < 0x7FF0_0000_0000_0000 {
                let text = write_float(FloatKind::Binary64, bits64, &write_opts);
                assert_eq!(parse_complete(FloatKind::Binary64, &text, &parse_opts), Ok(bits64));
            }
            let bits32 = next() & 0x7FFF_FFFF;
            if bits32 < 0x7F80_0000 {
                let text = write_float(FloatKind::Binary32, bits32, &write_opts);
                assert_eq!(parse_complete(FloatKind::Binary32, &text, &parse_opts), Ok(bits32));
            }
        }
    }
    // Decimal output agrees with the standard library's shortest formatting.
    let o = WriteFloatOptions::new();
    for _ in 0..200 {
        let bits = next() & 0x7FFF_FFFF_FFFF_FFFF;
        if bits >= 0x7FF0_0000_0000_0000 || bits == 0 {
            continue;
        }
        let x = f64::from_bits(bits);
        let (digits, e) = format_shortest(FloatKind::Binary64, bits, 10);
        let ours: String = digits.iter().map(|d| (b'0' + d) as char).collect();
        let std_text = format!("{:e}", x);
        let (mant, exp) = std_text.split_once('e').unwrap();
        let std_digits: String = mant.chars().filter(|c| *c != '.').collect();
        let std_exp: i64 = exp.parse().unwrap();
        assert_eq!(ours, std_digits, "{}", x);
        assert_eq!(e + digits.len() as i64 - 1, std_exp, "{}", x);
    }
}

#[test]
fn decimal_point_option() {
    let po = ParseFloatOptions::builder().decimal_point(b',').build().unwrap();
    let wo = WriteFloatOptions::builder().decimal_point(b',').build().unwrap();
    assert_eq!(parse_partial(FloatKind::Binary64, b"1,5e2", &po), Ok((150.0f64.to_bits(), 5)));
    assert_eq!(parse_partial(FloatKind::Binary64, b"1.5e2", &po), Ok((1.0f64.to_bits(), 1)));
    let text = write_float(FloatKind::Binary64, 1.5f64.to_bits(), &wo);
    assert_eq!(text, b"1,5e0".to_vec());
    assert_eq!(parse_complete(FloatKind::Binary64, &text, &po), Ok(1.5f64.to_bits()));
    assert_eq!(
        ParseFloatOptions::builder().decimal_point(b'7').build(),
        Err(OptionsError::InvalidDecimalPoint)
    );
    assert_eq!(
        WriteFloatOptions::builder().decimal_point(b'E').build(),
        Err(OptionsError::InvalidDecimalPoint)
    );
}

#[test]
fn parse_agrees_with_std_on_random_decimals() {
    let mut state: u64 = 0x2545_F491_4F6C_DD1D;
    let mut next = || {
        state ^= state << 13;
        state ^= state >> 7;
        state ^= state << 17;
        state
    };
    for _ in 0..300 {
        let ndigits = 1 + (next() % 30) as usize;
        let mut s = String::new();
        for i in 0..ndigits {
            let d = (next() % 10) as u8;
            s.push((b'0' + if i == 0 && d == 0 { 1 } else { d }) as char);
        }
        let point = (next() % (ndigits as u64 + 1)) as usize;
        if point < ndigits {
            s.insert(point, '.');
        }
        let exp = (next() % 700) as i64 - 350;
        s.push_str(&format!("e{}", exp));
        let ours = parse_complete(FloatKind::Binary64, s.as_bytes(), &ParseFloatOptions::new()).unwrap();
        let expected: f64 = s.parse().unwrap();
        assert_eq!(ours, expected.to_bits(), "{}", s);
        let ours32 = parse_complete(FloatKind::Binary32, s.as_bytes(), &ParseFloatOptions::new()).unwrap();
        let expected32: f32 = s.parse().unwrap();
        assert_eq!(ours32, expected32.to_bits() as u64, "{}", s);
    }
}
