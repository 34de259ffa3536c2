use dup_finder::model::{FileEntry, Group};
use dup_finder::scan::{classify_files, default_min_overlap, default_partial_hash_kb, default_phash_exact,
    default_phash_similar, default_vhash_frames, drop_zip_only_groups, effective_threads, is_same_zip_only_group,
    planned_stages};

fn group(id: &str, paths: &[&str]) -> Group {
    Group {
        id: id.to_string(),
        files: paths.iter().map(|p| FileEntry { path: p.to_string(), ..Default::default() }).collect(),
        ..Default::default()
    }
}

#[test]
fn defaults() {
    assert_eq!(default_partial_hash_kb(), 64);
    assert_eq!(default_phash_exact(), 0);
    assert_eq!(default_phash_similar(), 10);
    assert_eq!(default_vhash_frames(), 10);
    assert_eq!(default_min_overlap(), 2);
}

#[test]
fn thread_count() {
    assert_eq!(effective_threads(3, Some(8)), 3);
    assert_eq!(effective_threads(0, Some(8)), 8);
    assert_eq!(effective_threads(0, None), 4);
}

#[test]
fn files_split_by_kind() {
    let files: Vec<String> = ["/a.jpg", "/b.mp4", "/c.zip", "/d.txt", "/e.PNG"].iter().map(|s| s.to_string()).collect();
    let c = classify_files(&files);
    assert_eq!(c.regular, files);
    assert_eq!(c.image, vec!["/a.jpg".to_string(), "/e.PNG".to_string()]);
    assert_eq!(c.video, vec!["/b.mp4".to_string()]);
    assert_eq!(c.archive, vec!["/c.zip".to_string()]);
    assert_eq!(planned_stages(false, false, true, &c), (true, true, false));
    assert_eq!(planned_stages(true, false, false, &c), (false, true, true));
}

#[test]
fn zip_only_groups() {
    assert!(is_same_zip_only_group(&group("r1", &["/a.zip::x", "/a.zip::y"])));
    assert!(!is_same_zip_only_group(&group("r2", &["/a.zip::x", "/b.zip::x"])));
    assert!(!is_same_zip_only_group(&group("r3", &["/a.zip::x", "/a.zip"])));
    assert!(!is_same_zip_only_group(&group("r4", &[])));
    let kept = drop_zip_only_groups(vec![
        group("r1", &["/a.zip::x", "/a.zip::y"]),
        group("r2", &["/p", "/q"]),
        group("r3", &["/a.zip::x", "/b.zip::x"]),
    ]);
    let ids: Vec<&str> = kept.iter().map(|g| g.id.as_str()).collect();
    assert_eq!(ids, vec!["r2", "r3"]);
}
