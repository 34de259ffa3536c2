use dup_finder::csv_tabs::{csv_records, csv_to_groups, groups_from_records, groups_to_csv, CsvFile, CsvGroup};

fn cf(path: &str, size: u64, keep: bool) -> CsvFile {
    CsvFile {
        path: Some(path.to_string()),
        size: Some(size),
        file_type: None,
        hash: Some("h".to_string()),
        phash: None,
        created: None,
        keep: Some(keep),
        shared: Some(3),
        frame_count: Some("12".to_string()),
    }
}

fn rows(v: &[&[&str]]) -> Vec<Vec<String>> {
    v.iter().map(|r| r.iter().map(|s| s.to_string()).collect()).collect()
}

#[test]
fn regular_tab_rows() {
    let groups = vec![
        CsvGroup { id: Some("r1".to_string()), category: None, files: Some(vec![cf("/a", 10, true), cf("/b", 10, false)]) },
        CsvGroup { id: Some("r2".to_string()), category: None, files: None },
    ];
    assert_eq!(
        csv_records("regular", &groups),
        rows(&[
            &["group_id", "path", "size", "type", "hash", "created", "keep"],
            &["r1", "/a", "10", "file", "h", "", "YES"],
            &["r1", "/b", "10", "file", "h", "", "NO"],
            &["", "", "", "", "", "", ""],
        ])
    );
}

#[test]
fn image_and_archive_tab_rows() {
    let groups = vec![CsvGroup { id: None, category: Some("exact".to_string()), files: Some(vec![cf("/p.jpg", 5, true)]) }];
    assert_eq!(
        csv_records("image", &groups),
        rows(&[
            &["category", "group_id", "path", "size_bytes", "type", "phash", "keep"],
            &["exact", "", "/p.jpg", "5", "file", "", "YES"],
            &["", "", "", "", "", "", ""],
        ])
    );
    assert_eq!(
        csv_records("archive", &groups),
        rows(&[&["group_id", "path", "size", "shared_files", "keep"], &["", "/p.jpg", "5", "3", "YES"], &["", "", "", "", ""]])
    );
    assert_eq!(
        csv_records("video", &groups),
        rows(&[
            &["category", "group_id", "path", "size", "type", "frame_count", "keep"],
            &["exact", "", "/p.jpg", "5", "file", "12", "YES"],
            &["", "", "", "", "", "", ""],
        ])
    );
    assert!(csv_records("other", &groups).is_empty());
}

fn rec(pairs: &[(&str, &str)]) -> Vec<(String, String)> {
    pairs.iter().map(|(k, v)| (k.to_string(), v.to_string())).collect()
}

#[test]
fn groups_read_back_in_first_seen_order() {
    let records = vec![
        rec(&[("group_id", "r2"), ("path", "/x"), ("size", "2048"), ("keep", "YES"), ("hash", "aa")]),
        rec(&[("group_id", ""), ("path", ""), ("size", "")]),
        rec(&[("group_id", "r1"), ("path", "/y"), ("size_bytes", "7"), ("keep", "no"), ("category", "similar")]),
        rec(&[("group_id", "r2"), ("path", "/z"), ("size", "1024"), ("keep", "No"), ("shared_files", "4")]),
        rec(&[("group_id", "r2"), ("path", "/w"), ("size", "x1"), ("type", "archive")]),
    ];
    let groups = groups_from_records(&records).unwrap();
    assert_eq!(groups.len(), 2);
    assert_eq!(groups[0].id, "r2");
    assert_eq!(groups[0].files.len(), 3);
    assert_eq!(groups[0].savable, 1024);
    assert_eq!(groups[0].savable_fmt, "1.0 KB");
    assert_eq!(groups[0].category, "");
    assert!(groups[0].files[0].keep);
    assert!(!groups[0].files[1].keep);
    assert!(groups[0].files[2].keep);
    assert_eq!(groups[0].files[0].size_fmt, "2.0 KB");
    assert_eq!(groups[0].files[0].hash.as_deref(), Some("aa"));
    assert_eq!(groups[0].files[1].shared, Some(4));
    assert_eq!(groups[0].files[2].size, 0);
    assert_eq!(groups[0].files[2].file_type, "archive");
    assert_eq!(groups[0].files[1].file_type, "file");
    assert_eq!(groups[1].id, "r1");
    assert_eq!(groups[1].category, "similar");
    assert_eq!(groups[1].files[0].size, 7);
    assert_eq!(groups[1].savable, 0);
}

#[test]
fn overflowing_saving_is_reported() {
    let records = vec![
        rec(&[("group_id", "g"), ("size", "1")]),
        rec(&[("group_id", "g"), ("size", "18446744073709551615")]),
        rec(&[("group_id", "g"), ("size", "1")]),
    ];
    assert!(groups_from_records(&records).is_none());
}

#[test]
fn duplicates_tab_reads_back_its_groups() {
    let groups = vec![
        CsvGroup { id: Some("r1".to_string()), category: None, files: Some(vec![cf("/a", 10, true), cf("/b", 10, false)]) },
        CsvGroup { id: Some("r2".to_string()), category: None, files: Some(vec![cf("/c", 4096, true), cf("/d", 4096, false), cf("/e", 1, false)]) },
    ];
    let written = csv_records("regular", &groups);
    let header = written[0].clone();
    let records: Vec<Vec<(String, String)>> = written[1..]
        .iter()
        .map(|row| header.iter().cloned().zip(row.iter().cloned()).collect())
        .collect();
    let back = groups_from_records(&records).unwrap();
    assert_eq!(back.len(), 2);
    assert_eq!(back[0].id, "r1");
    assert_eq!(back[1].id, "r2");
    let paths: Vec<&str> = back[1].files.iter().map(|f| f.path.as_str()).collect();
    assert_eq!(paths, vec!["/c", "/d", "/e"]);
    assert_eq!(back[1].files[0].size, 4096);
    assert!(back[1].files[0].keep);
    assert!(!back[1].files[1].keep);
    assert_eq!(back[1].savable, 4097);
    assert_eq!(back[0].files[0].hash.as_deref(), Some("h"));
}

#[test]
fn saved_tab_text_reads_back_for_every_tab() {
    let groups = vec![
        CsvGroup { id: Some("v1".to_string()), category: Some("similar".to_string()), files: Some(vec![cf("/a, b.mp4", 10, true), cf("/c\"d.mp4", 20, false)]) },
        CsvGroup { id: Some("v2".to_string()), category: Some("exact".to_string()), files: Some(vec![cf("/e.mp4", 1, true), cf("/f.mp4", 2, false)]) },
    ];
    for tab in ["regular", "image", "archive", "video"] {
        let text = groups_to_csv(tab, &groups);
        assert!(text.contains("\"/a, b.mp4\""));
        let back = csv_to_groups(tab, &text).unwrap();
        assert_eq!(back.len(), 2);
        assert_eq!(back[0].id, "v1");
        assert_eq!(back[1].id, "v2");
        let paths: Vec<&str> = back[0].files.iter().map(|f| f.path.as_str()).collect();
        assert_eq!(paths, vec!["/a, b.mp4", "/c\"d.mp4"]);
        assert!(back[0].files[0].keep);
        assert!(!back[0].files[1].keep);
        assert_eq!(back[0].savable, 20);
        assert_eq!(back[1].files[1].size, 2);
        let cat = if tab == "image" || tab == "video" { "similar" } else { "" };
        assert_eq!(back[0].category, cat);
        let frames = if tab == "video" { Some("12") } else { None };
        assert_eq!(back[0].files[0].frame_count.as_deref(), frames);
        let shared = if tab == "archive" { Some(3) } else { None };
        assert_eq!(back[0].files[0].shared, shared);
    }
    assert_eq!(groups_to_csv("other", &groups), "");
    assert!(csv_to_groups("regular", "").unwrap().is_empty());
}
