use moss::size::format_size;

fn by_floats(size: u64) -> String {
    let units = ["B", "KB", "MB", "GB", "TB"];
    let mut size = size as f64;
    let mut unit = 0;
    while size >= 1024.0 && unit < units.len() - 1 {
        size /= 1024.0;
        unit += 1;
    }
    if unit == 0 {
        format!("{} {}", size as u64, units[unit])
    } else {
        format!("{:.1} {}", size, units[unit])
    }
}

#[test]
fn sizes_are_shown_in_units() {
    assert_eq!(format_size(0), "0 B");
    assert_eq!(format_size(1023), "1023 B");
    assert_eq!(format_size(1024), "1.0 KB");
    assert_eq!(format_size(1536), "1.5 KB");
    assert_eq!(format_size(1_048_575), "1024.0 KB");
    assert_eq!(format_size(5 * 1024 * 1024 * 1024), "5.0 GB");
    assert_eq!(format_size(u64::MAX), "16777216.0 TB");
}

#[test]
fn sizes_agree_with_floating_point() {
    let mut size: u64 = 1;
    for step in 0..4000u64 {
        assert_eq!(format_size(size), by_floats(size), "{}", size);
        size = size.wrapping_mul(6364136223846793005).wrapping_add(step * 2 + 1) >> (step % 50);
        size = size.max(1);
    }
    for power in 0..64 {
        for offset in [-2i128, -1, 0, 1, 2, 51, 52, 76, 77, 128, 1280] {
            let value = (1i128 << power) + offset;
            if (0..=u64::MAX as i128).contains(&value) {
                assert_eq!(format_size(value as u64), by_floats(value as u64), "{}", value);
            }
        }
    }
}
