use texforge::size::format_size;

/// The size as floating point would show it.
fn shown(bytes: u64) -> String {
    if bytes < 1024 {
        return format!("{bytes} B");
    }
    let units = ["B", "KB", "MB", "GB", "TB"];
    let mut size = bytes as f64;
    let mut unit = 0;
    while size >= 1024.0 && unit < units.len() - 1 {
        size /= 1024.0;
        unit += 1;
    }
    format!("{size:.1} {}", units[unit])
}

#[test]
fn sizes_agree_with_floating_point() {
    for base in [0u64, 1023, 1024, 1536, 1588, 1587, 1075, 1126, 51_200, 1_048_575, 1_048_576] {
        for d in 0..40 {
            assert_eq!(format_size(base + d), shown(base + d));
        }
    }
    for shift in 0..64 {
        let n = 1u64 << shift;
        for d in [0u64, 1, 2, 3, 51, 52, 1023] {
            assert_eq!(format_size(n.saturating_add(d)), shown(n.saturating_add(d)));
            assert_eq!(format_size(n.saturating_sub(d)), shown(n.saturating_sub(d)));
        }
    }
    assert_eq!(format_size(u64::MAX), shown(u64::MAX));
}

#[test]
fn ties_are_rounded_to_even() {
    // 1.25 and 1.75 kilobytes
    assert_eq!(format_size(1280), "1.2 KB");
    assert_eq!(format_size(1792), "1.8 KB");
}
