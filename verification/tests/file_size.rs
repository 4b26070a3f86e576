use chronicle::utils::file_size::{
    format_human_readable_size, format_size_auto, format_size_in, format_size_with_unit,
};

#[test]
fn test_format_size_auto() {
    assert_eq!(format_size_auto(0), "0 B");
    assert_eq!(format_size_auto(1024), "1.00 KiB");
    assert_eq!(format_size_auto(1024 * 1024), "1.00 MiB");
    assert_eq!(format_size_auto(1024 * 1024 * 1024), "1.00 GiB");
    assert_eq!(format_size_auto(1024 * 1024 * 1024 * 1024), "1.00 TiB");
    assert_eq!(format_size_auto(256 * 1024 * 1024 * 1024), "256.00 GiB");
}

#[test]
fn test_format_size_with_unit() {
    assert_eq!(format_size_with_unit(0, "b").unwrap(), "0 B");
    assert_eq!(format_size_with_unit(1024, "b").unwrap(), "1024 B");
    assert_eq!(
        format_size_with_unit(1024 * 1024, "kib").unwrap(),
        "1024.00 KiB"
    );
    assert_eq!(
        format_size_with_unit(1024 * 1024 * 1024, "mib").unwrap(),
        "1024.00 MiB"
    );
    assert_eq!(
        format_size_with_unit(1024 * 1024 * 1024 * 1024, "gib").unwrap(),
        "1024.00 GiB"
    );
    assert_eq!(
        format_size_with_unit(1024 * 1024 * 1024 * 1024 * 1024, "tib").unwrap(),
        "1024.00 TiB"
    );
}

const KIB: u64 = 1024;
const MIB: u64 = 1024 * KIB;
const GIB: u64 = 1024 * MIB;
const TIB: u64 = 1024 * GIB;

fn with_floats(bytes: u64) -> String {
    if bytes >= TIB {
        format!("{:.2} TiB", bytes as f64 / TIB as f64)
    } else if bytes >= GIB {
        format!("{:.2} GiB", bytes as f64 / GIB as f64)
    } else if bytes >= MIB {
        format!("{:.2} MiB", bytes as f64 / MIB as f64)
    } else if bytes >= KIB {
        format!("{:.2} KiB", bytes as f64 / KIB as f64)
    } else {
        format!("{} B", bytes)
    }
}

fn samples() -> Vec<u64> {
    let mut values: Vec<u64> = vec![
        0, 1, 5, 9, 10, 99, 100, 128, 512, 1023, 1024, 1025, 1029, 1030, 1034, 1035, 1152, 1408,
        1536, 2047, 2048, 10239, 10240, 1048575, 1048576, 1048577, 1572864, 1073741823,
        1073741824, 1099511627775, 1099511627776, 1649267441664,
        9007199254740991, 9007199254740992, 9007199254740993, 9007199254740994,
        9007199254740995, 18014398509481983, 18014398509481984, 18014398509481985,
        18014398509481986, 18014398509481987, 9223372036854775807, 9223372036854775808,
        18446744073709550591, 18446744073709550592, 18446744073709550593,
        18446744073709551615,
    ];
    let mut x: u64 = 88172645463325252;
    let mut i = 0;
    while i < 4000 {
        x ^= x << 13;
        x ^= x >> 7;
        x ^= x << 17;
        values.push(x);
        values.push(x >> (i % 64));
        values.push(128 + 256 * (x >> 40));
        i += 1;
    }
    values
}

#[test]
fn sizes_are_written_as_floating_point_formatting_writes_them() {
    for bytes in samples() {
        assert_eq!(format_size_auto(bytes), with_floats(bytes), "for {}", bytes);
    }
}

#[test]
fn sizes_in_a_given_unit_are_written_as_floating_point_formatting_writes_them() {
    for bytes in samples() {
        assert_eq!(
            format_size_with_unit(bytes, "b").unwrap(),
            format!("{} B", bytes as f64),
            "for {}",
            bytes
        );
        assert_eq!(
            format_size_with_unit(bytes, "kib").unwrap(),
            format!("{:.2} KiB", bytes as f64 / KIB as f64)
        );
        assert_eq!(
            format_size_with_unit(bytes, "mib").unwrap(),
            format!("{:.2} MiB", bytes as f64 / MIB as f64)
        );
        assert_eq!(
            format_size_with_unit(bytes, "gib").unwrap(),
            format!("{:.2} GiB", bytes as f64 / GIB as f64)
        );
        assert_eq!(
            format_size_with_unit(bytes, "tib").unwrap(),
            format!("{:.2} TiB", bytes as f64 / TIB as f64)
        );
    }
}

#[test]
fn a_tie_between_two_hundredths_goes_to_the_even_one() {
    assert_eq!(format_size_auto(1152), "1.12 KiB");
    assert_eq!(format_size_auto(1408), "1.38 KiB");
    assert_eq!(format_size_with_unit(128, "kib").unwrap(), "0.12 KiB");
    assert_eq!(format_size_with_unit(384, "kib").unwrap(), "0.38 KiB");
}

#[test]
fn sizes_below_a_kibibyte_are_whole_bytes() {
    assert_eq!(format_size_auto(1), "1 B");
    assert_eq!(format_size_auto(1023), "1023 B");
}

#[test]
fn a_size_is_written_in_the_largest_unit_that_it_fills() {
    assert_eq!(format_size_auto(1536), "1.50 KiB");
    assert_eq!(format_size_auto(1048575), "1024.00 KiB");
    assert_eq!(format_size_auto(5 * 1024 * 1024 + 512 * 1024), "5.50 MiB");
    assert_eq!(format_size_auto(u64::MAX), "16777216.00 TiB");
}

#[test]
fn the_short_scale_stops_at_gibibytes() {
    assert_eq!(format_human_readable_size(0), "0 B");
    assert_eq!(format_human_readable_size(1024), "1.00 KiB");
    assert_eq!(format_human_readable_size(1024 * 1024 * 1024 * 1024), "1024.00 GiB");
    assert_eq!(format_human_readable_size(3 * 1024 * 1024 * 1024 / 2), "1.50 GiB");
}

#[test]
fn the_unit_may_be_written_in_any_case() {
    assert_eq!(format_size_with_unit(2048, "KiB").unwrap(), "2.00 KiB");
    assert_eq!(format_size_with_unit(2048, "KIB").unwrap(), "2.00 KiB");
    assert_eq!(format_size_with_unit(7, "B").unwrap(), "7 B");
    assert_eq!(format_size_with_unit(3 * 1024 * 1024, "MiB").unwrap(), "3.00 MiB");
}

#[test]
fn an_unknown_unit_is_refused_with_its_name() {
    assert_eq!(format_size_with_unit(1, "kb").unwrap_err(), "Invalid unit: kb");
    assert_eq!(format_size_with_unit(1, "").unwrap_err(), "Invalid unit: ");
    assert_eq!(format_size_with_unit(1, "PiB").unwrap_err(), "Invalid unit: PiB");
}

#[test]
fn the_unit_is_matched_after_lowering_and_not_before() {
    assert_eq!(format_size_in(2048, "kib", "KiB").unwrap(), "2.00 KiB");
    assert_eq!(format_size_in(2048, "KiB", "KiB").unwrap_err(), "Invalid unit: KiB");
    assert_eq!(format_size_in(2048, "b", "x").unwrap(), "2048 B");
}

#[test]
fn bytes_beyond_53_bits_are_written_as_the_nearest_double() {
    assert_eq!(
        format_size_with_unit(u64::MAX, "b").unwrap(),
        format!("{} B", u64::MAX as f64)
    );
    assert_eq!(
        format_size_with_unit(9007199254740993, "b").unwrap(),
        "9007199254740992 B"
    );
    assert_eq!(
        format_size_with_unit(9007199254740995, "b").unwrap(),
        "9007199254740996 B"
    );
    assert_eq!(
        format_size_with_unit(9223372036854775807, "b").unwrap(),
        "9223372036854776000 B"
    );
}
