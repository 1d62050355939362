use lexical_core::digits::write_integer;

fn check_integer(x: u128, radix: u32, actual: &[u8]) {
    let written = write_integer(x, radix);
    assert_eq!(actual.len(), written.len());
    assert_eq!(actual, &written[..])
}

#[test]
fn u128toa_test() {
    let value = 136551478823710021067381144334863695872u128;
    let written = write_integer(value, 12);
    let y = u128::from_str_radix(std::str::from_utf8(&written).unwrap(), 12);
    assert_eq!(y, Ok(value));
}

#[test]
fn binary_test() {
    // Binary
    check_integer(0u128, 2, b"0");
    check_integer(1u128, 2, b"1");
    check_integer(5u128, 2, b"101");
    check_integer(170141183460469231731687303715884105727u128, 2, b"1111111111111111111111111111111111111111111111111111111111111111111111111111111111111111111111111111111111111111111111111111111");

    // Hexadecimal
    check_integer(170141183460469231731687303715884105727u128, 16, b"7FFFFFFFFFFFFFFFFFFFFFFFFFFFFFFF");
}

#[test]
fn radix_test() {
    check_integer(37u32 as u128, 2, b"100101");
    check_integer(37u32 as u128, 3, b"1101");
    check_integer(37u32 as u128, 4, b"211");
    check_integer(37u32 as u128, 5, b"122");
    check_integer(37u32 as u128, 6, b"101");
    check_integer(37u32 as u128, 7, b"52");
    check_integer(37u32 as u128, 8, b"45");
    check_integer(37u32 as u128, 9, b"41");
    check_integer(37u32 as u128, 10, b"37");
    check_integer(37u32 as u128, 11, b"34");
    check_integer(37u32 as u128, 12, b"31");
    check_integer(37u32 as u128, 13, b"2B");
    check_integer(37u32 as u128, 14, b"29");
    check_integer(37u32 as u128, 15, b"27");
    check_integer(37u32 as u128, 16, b"25");
    check_integer(37u32 as u128, 17, b"23");
    check_integer(37u32 as u128, 18, b"21");
    check_integer(37u32 as u128, 19, b"1I");
    check_integer(37u32 as u128, 20, b"1H");
    check_integer(37u32 as u128, 21, b"1G");
    check_integer(37u32 as u128, 22, b"1F");
    check_integer(37u32 as u128, 23, b"1E");
    check_integer(37u32 as u128, 24, b"1D");
    check_integer(37u32 as u128, 25, b"1C");
    check_integer(37u32 as u128, 26, b"1B");
    check_integer(37u32 as u128, 27, b"1A");
    check_integer(37u32 as u128, 28, b"19");
    check_integer(37u32 as u128, 29, b"18");
    check_integer(37u32 as u128, 30, b"17");
    check_integer(37u32 as u128, 31, b"16");
    check_integer(37u32 as u128, 32, b"15");
    check_integer(37u32 as u128, 33, b"14");
    check_integer(37u32 as u128, 34, b"13");
    check_integer(37u32 as u128, 35, b"12");
    check_integer(37u32 as u128, 36, b"11");
}

#[test]
fn issue_169_tests() {
    let value = 213850084767170003246100602438595641344u128;
    check_integer(value, 5, b"3411233210434101044040414300210231141130323220441010334");
}
