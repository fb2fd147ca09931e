use fattest::{format_size, table_rows, FileData, FileDataTable};

#[test]
fn sizes_below_one_kilobyte_stay_in_bytes() {
    assert_eq!(format_size(0, false), "0 Bytes");
    assert_eq!(format_size(0, true), "0.00 Bytes");
    assert_eq!(format_size(1023, false), "1023 Bytes");
    assert_eq!(format_size(7, true), "7.00 Bytes");
}

#[test]
fn sizes_scale_by_1024() {
    assert_eq!(format_size(1024, false), "1 KB");
    assert_eq!(format_size(1024, true), "1.00 KB");
    assert_eq!(format_size(1_048_576, true), "1.00 MB");
    assert_eq!(format_size(5 * 1_073_741_824, false), "5 GB");
    assert_eq!(format_size(1_099_511_627_776, true), "1.00 TB");
    assert_eq!(format_size(usize::MAX, true), "16.00 EB");
}

#[test]
fn rounding_goes_half_to_even() {
    assert_eq!(format_size(1536, false), "2 KB");
    assert_eq!(format_size(2560, false), "2 KB");
    assert_eq!(format_size(3584, false), "4 KB");
    assert_eq!(format_size(1152, true), "1.12 KB");
    assert_eq!(format_size(1280, true), "1.25 KB");
    assert_eq!(format_size(1500, true), "1.46 KB");
}

#[test]
fn agrees_with_float_formatting() {
    const UNITS: [&str; 9] = ["Bytes", "KB", "MB", "GB", "TB", "PB", "EB", "ZB", "YB"];
    let mut values: Vec<usize> = (0..5000).collect();
    let mut x: u64 = 17;
    for _ in 0..20000 {
        x = x.wrapping_mul(6364136223846793005).wrapping_add(1442695040888963407);
        values.push((x >> (x % 40 + 11)) as usize);
    }
    for b in values {
        let mut size = b as f64;
        let mut i = 0;
        while size >= 1024.0 && i < UNITS.len() - 1 {
            size /= 1024.0;
            i += 1;
        }
        assert_eq!(format_size(b, false), format!("{:.0} {}", size, UNITS[i]), "bytes {}", b);
        assert_eq!(format_size(b, true), format!("{:.2} {}", size, UNITS[i]), "bytes {}", b);
    }
}

#[test]
fn rows_pair_paths_with_sizes() {
    let files = vec![FileData::new("big".to_string(), 2048), FileData::new("small".to_string(), 5)];
    let rows = table_rows(&files);
    assert_eq!(rows.len(), 2);
    assert_eq!(rows[0].path, "big");
    assert_eq!(rows[0].size, "2.00 KB");
    assert_eq!(rows[1].path, "small");
    assert_eq!(rows[1].size, "5.00 Bytes");
    let t = FileDataTable::new("p".to_string(), "1 KB".to_string());
    assert_eq!(t.path, "p");
    assert_eq!(t.size, "1 KB");
}
