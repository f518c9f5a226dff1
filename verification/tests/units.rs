use multipart_stream::units::format_bytes;

/// The same count rendered through a binary double.
fn through_double(bytes: usize) -> String {
    let kb = 1024.0_f64;
    let mb = kb * 1024.0;
    let gb = mb * 1024.0;
    let value = bytes as f64;
    if bytes >= 1024 * 1024 * 1024 {
        format!("{:.2} GB", value / gb)
    } else if bytes >= 1024 * 1024 {
        format!("{:.2} MB", value / mb)
    } else if bytes >= 1024 {
        format!("{:.2} KB", value / kb)
    } else {
        format!("{} bytes", bytes)
    }
}

#[test]
fn small_counts_are_given_in_bytes() {
    assert_eq!(format_bytes(0), "0 bytes");
    assert_eq!(format_bytes(7), "7 bytes");
    assert_eq!(format_bytes(512), "512 bytes");
    assert_eq!(format_bytes(1023), "1023 bytes");
}

#[test]
fn units_change_at_powers_of_1024() {
    assert_eq!(format_bytes(1024), "1.00 KB");
    assert_eq!(format_bytes(1536), "1.50 KB");
    assert_eq!(format_bytes(1024 * 1024 - 1), "1024.00 KB");
    assert_eq!(format_bytes(1024 * 1024), "1.00 MB");
    assert_eq!(format_bytes(5 * 1024 * 1024 + 512 * 1024), "5.50 MB");
    assert_eq!(format_bytes(1024 * 1024 * 1024), "1.00 GB");
    assert_eq!(format_bytes(3 * 1024 * 1024 * 1024), "3.00 GB");
}

#[test]
fn half_way_goes_to_the_even_hundredth() {
    // 1152 / 1024 = 1.125 and 1408 / 1024 = 1.375, both half way.
    assert_eq!(format_bytes(1152), "1.12 KB");
    assert_eq!(format_bytes(1408), "1.38 KB");
    assert_eq!(format_bytes(1029), "1.00 KB");
    assert_eq!(format_bytes(1030), "1.01 KB");
}

#[test]
fn agrees_with_a_double_on_a_sweep() {
    let mut bytes: usize = 0;
    let mut count = 0;
    while count < 200_000 {
        assert_eq!(format_bytes(bytes), through_double(bytes), "at {}", bytes);
        bytes = bytes.wrapping_mul(6364136223846793005).wrapping_add(1442695040888963407);
        count += 1;
    }
    for shift in 0..usize::BITS {
        let base = 1usize << shift;
        for delta in 0..300usize {
            let up = base.saturating_add(delta);
            let down = base.saturating_sub(delta);
            assert_eq!(format_bytes(up), through_double(up), "at {}", up);
            assert_eq!(format_bytes(down), through_double(down), "at {}", down);
        }
    }
    assert_eq!(format_bytes(usize::MAX), through_double(usize::MAX));
}

#[test]
fn agrees_with_a_double_on_small_counts() {
    for bytes in 0..300_000usize {
        assert_eq!(format_bytes(bytes), through_double(bytes), "at {}", bytes);
    }
}
