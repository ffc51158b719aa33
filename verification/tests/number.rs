use reviewbuddy::number::{parse, push_decimal};

fn printed(n: u128) -> String {
    let mut s = String::from("n=");
    push_decimal(&mut s, n);
    s
}

#[test]
fn numbers_are_printed_in_decimal() {
    assert_eq!(printed(0), "n=0");
    assert_eq!(printed(7), "n=7");
    assert_eq!(printed(100), "n=100");
    assert_eq!(printed(18_446_744_073_709_551_616), "n=18446744073709551616");
    assert_eq!(printed(u128::MAX), format!("n={}", u128::MAX));
}

#[test]
fn numbers_are_parsed_as_std_does() {
    let inputs = [
        "", "0", "7", "+7", "-7", "+", "++7", "007", "4294967295", "4294967296", "1a", " 1", "1 ",
        "99999999999999999999", "18446744073709551615", "18446744073709551616", "١",
    ];
    for s in inputs {
        assert_eq!(parse(s, u32::MAX as u64), s.parse::<u32>().ok().map(u64::from), "{s}");
        assert_eq!(parse(s, u64::MAX), s.parse::<u64>().ok(), "{s}");
    }
}

#[test]
fn printed_numbers_parse_back() {
    for n in [0u64, 1, 9, 10, 12345, u64::MAX] {
        let mut s = String::new();
        push_decimal(&mut s, n as u128);
        assert_eq!(parse(&s, u64::MAX), Some(n));
    }
    assert_eq!(parse("300", 255), None);
}
