use node_modules_cleaner::size_format::{get_size_as_string, push_decimal, GIB, MIB};

fn float_rendering(n: u64) -> String {
    if n > 1024 * 1024 * 1024 {
        format!("{:.2} GB", n as f64 / (1024.0 * 1024.0 * 1024.0))
    } else {
        format!("{:.2} MB", n as f64 / (1024.0 * 1024.0))
    }
}

#[test]
fn zero_bytes_is_zero_megabytes() {
    assert_eq!(get_size_as_string(0), "0.00 MB");
}

#[test]
fn one_mebibyte() {
    assert_eq!(get_size_as_string(1024 * 1024), "1.00 MB");
}

#[test]
fn just_above_one_gibibyte_is_gigabytes() {
    assert_eq!(get_size_as_string(1024 * 1024 * 1024 + 1), "1.00 GB");
}

#[test]
fn exactly_one_gibibyte_stays_megabytes() {
    assert_eq!(get_size_as_string(1024 * 1024 * 1024), "1024.00 MB");
}

#[test]
fn fractional_megabytes() {
    assert_eq!(get_size_as_string(1536 * 1024), "1.50 MB");
    assert_eq!(get_size_as_string(1300), "0.00 MB");
    assert_eq!(get_size_as_string(MIB * 5 / 100 + 1), "0.05 MB");
}

#[test]
fn ties_round_to_even() {
    // 0.125 MB and 0.375 MB are exact halves of a hundredth.
    assert_eq!(get_size_as_string(131072), "0.12 MB");
    assert_eq!(get_size_as_string(393216), "0.38 MB");
}

#[test]
fn large_gigabyte_counts() {
    assert_eq!(get_size_as_string(GIB * 3 / 2), "1.50 GB");
    assert_eq!(get_size_as_string(GIB * 1000), "1000.00 GB");
    assert_eq!(get_size_as_string(u64::MAX), float_rendering(u64::MAX));
}

#[test]
fn agrees_with_float_formatting() {
    let mut n: u64 = 0;
    while n < 3 * GIB {
        assert_eq!(get_size_as_string(n), float_rendering(n), "bytes = {}", n);
        n += 7_777_777;
    }
    for n in [MIB - 1, MIB + 1, GIB - 1, GIB + 1, 10_485, 10_486, 52_428, 52_429] {
        assert_eq!(get_size_as_string(n), float_rendering(n), "bytes = {}", n);
    }
}

#[test]
fn decimal_digits_are_appended() {
    let mut s = String::from("n=");
    push_decimal(&mut s, 907);
    assert_eq!(s, "n=907");
    let mut z = String::new();
    push_decimal(&mut z, 0);
    assert_eq!(z, "0");
    let mut m = String::new();
    push_decimal(&mut m, u64::MAX);
    assert_eq!(m, u64::MAX.to_string());
}
