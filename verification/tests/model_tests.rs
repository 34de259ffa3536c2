use dup_finder::model::{fmt_size, sort_by_savable, Group};

fn float_fmt_size(bytes: u64) -> String {
    let units = ["B", "KB", "MB", "GB", "TB"];
    if bytes == 0 {
        return "0 B".to_string();
    }
    let mut size = bytes as f64;
    let mut unit_idx = 0;
    while size >= 1024.0 && unit_idx < units.len() - 1 {
        size /= 1024.0;
        unit_idx += 1;
    }
    if unit_idx == 0 {
        format!("{} {}", bytes, units[unit_idx])
    } else {
        format!("{:.1} {}", size, units[unit_idx])
    }
}

#[test]
fn fmt_size_known_values() {
    assert_eq!(fmt_size(0), "0 B");
    assert_eq!(fmt_size(1), "1 B");
    assert_eq!(fmt_size(1023), "1023 B");
    assert_eq!(fmt_size(1024), "1.0 KB");
    assert_eq!(fmt_size(1536), "1.5 KB");
    assert_eq!(fmt_size(1024 * 1024), "1.0 MB");
    assert_eq!(fmt_size(1024 * 1024 * 1024 * 5 / 2), "2.5 GB");
    assert_eq!(fmt_size(u64::MAX), "16777216.0 TB");
}

#[test]
fn fmt_size_matches_float_formatting() {
    let mut samples: Vec<u64> = Vec::new();
    for n in 0..5000u64 {
        samples.push(n);
    }
    for k in 1..5u32 {
        let base = 1024u64.pow(k);
        for m in 0..3000u64 {
            samples.push(base + m * 7);
            samples.push(base * 1023 + m * 13);
            samples.push(base * (m % 1024 + 1) + (m * 104_729) % base);
        }
    }
    samples.push(u64::MAX);
    samples.push(u64::MAX - 1);
    samples.push(1u64 << 63);
    for &n in &samples {
        assert_eq!(fmt_size(n), float_fmt_size(n), "size {}", n);
    }
}

fn g(id: &str, savable: u64) -> Group {
    Group { id: id.to_string(), savable, ..Default::default() }
}

#[test]
fn groups_sorted_by_savable_stably() {
    let out = sort_by_savable(vec![g("a", 5), g("b", 9), g("c", 5), g("d", 0), g("e", 9)]);
    let ids: Vec<&str> = out.iter().map(|x| x.id.as_str()).collect();
    assert_eq!(ids, vec!["b", "e", "a", "c", "d"]);
}
