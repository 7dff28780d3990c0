use dirscan::fmt_bytes::format_size;

#[test]
fn zero_bytes() {
    assert_eq!(format_size(0), "0 B");
}

#[test]
fn just_below_one_kilobyte() {
    assert_eq!(format_size(1023), "1023 B");
}

#[test]
fn exactly_one_kilobyte() {
    assert_eq!(format_size(1024), "1.0 KB");
}

#[test]
fn exactly_one_megabyte() {
    assert_eq!(format_size(1_048_576), "1.0 MB");
}

#[test]
fn exactly_one_gigabyte() {
    assert_eq!(format_size(1_073_741_824), "1.0 GB");
}

#[test]
fn one_and_a_half_kilobytes() {
    assert_eq!(format_size(1536), "1.5 KB");
}

#[test]
fn tie_rounds_to_even_digit() {
    // 1792 bytes is exactly 1.75 KB; the tie goes to the even tenth
    assert_eq!(format_size(1792), "1.8 KB");
}

#[test]
fn ten_megabytes() {
    assert_eq!(format_size(10 * 1_048_576), "10.0 MB");
}

#[test]
fn five_gigabytes() {
    assert_eq!(format_size(5 * 1_073_741_824), "5.0 GB");
}

#[test]
fn just_below_one_megabyte() {
    // 1048575 bytes is 1023.9990 KB, shown as 1024.0 KB after rounding
    assert_eq!(format_size(1_048_575), "1024.0 KB");
}

#[test]
fn small_counts_are_plain_bytes() {
    assert_eq!(format_size(1), "1 B");
    assert_eq!(format_size(512), "512 B");
}
