use dup_finder::archive::{extract_entries, find_archive_duplicates, member_action, shared_members, ArchiveKind, ArchiveListing, MemberAction};
use dup_finder::dupes::{duplicate_plan, duplicate_groups, hash_groups, shared_key_members, size_candidates, split_by_inode};

#[test]
fn size_classes_keep_files_sharing_a_size() {
    let sizes = vec![Some(10u64), Some(20), None, Some(10), Some(5), Some(20), Some(10)];
    assert_eq!(size_candidates(&sizes, 0), vec![0, 3, 6, 1, 5]);
    let small = vec![Some(100u64), Some(100), Some(5000), Some(5000)];
    assert_eq!(size_candidates(&small, 1), vec![2, 3]);
}

#[test]
fn partial_hash_filter_and_full_hash_groups() {
    let cands = vec![4usize, 7, 9, 11];
    let heads = vec![Some("x".to_string()), Some("y".to_string()), Some("x".to_string()), None];
    assert_eq!(shared_key_members(&cands, &heads), vec![4, 9]);
    let full = vec![Some("h1".to_string()), Some("h2".to_string()), Some("h1".to_string()), Some("h2".to_string())];
    let (groups, hashes) = hash_groups(&cands, &full);
    assert_eq!(groups, vec![vec![4, 9], vec![7, 11]]);
    assert_eq!(hashes, vec!["h1".to_string(), "h2".to_string()]);
}

#[test]
fn hard_links_grouped_by_inode() {
    let cands = vec![0usize, 1, 2, 3];
    let inodes = vec![Some((5u64, 10u64)), None, Some((5, 10)), Some((6, 10))];
    let (groups, rest) = split_by_inode(&cands, &inodes);
    assert_eq!(groups, vec![vec![0, 2]]);
    assert_eq!(rest, vec![1, 3]);
}

#[test]
fn duplicate_groups_numbered_sorted_and_first_kept() {
    let paths: Vec<String> = ["/a", "/b", "/c", "/d", "/e"].iter().map(|s| s.to_string()).collect();
    let sizes = vec![10u64, 10, 2048, 2048, 7];
    let created = vec![Some("2024-01-01T00:00:00".to_string()), None, None, None, None];
    let hash_members = vec![vec![0usize, 1], vec![2, 3]];
    let hashes = vec!["aa".to_string(), "bb".to_string()];
    let inode_members = vec![vec![4usize, 4]];
    let groups = duplicate_groups(&paths, &sizes, &created, &hash_members, &hashes, &inode_members);
    let ids: Vec<&str> = groups.iter().map(|g| g.id.as_str()).collect();
    assert_eq!(ids, vec!["r2", "r1", "r-ino1"]);
    assert_eq!(groups[0].savable, 2048);
    assert_eq!(groups[0].savable_fmt, "2.0 KB");
    assert!(groups[0].files[0].keep);
    assert!(!groups[0].files[1].keep);
    assert_eq!(groups[1].files[0].created.as_deref(), Some("2024-01-01T00:00:00"));
    assert_eq!(groups[1].files[0].hash.as_deref(), Some("aa"));
    assert_eq!(groups[2].files[0].hash.as_deref(), Some("inode-0"));
    assert_eq!(groups[2].files[0].size_fmt, "7 B");
}

#[test]
fn archive_kinds() {
    assert_eq!(extract_entries("/x/a.ZIP"), Some(ArchiveKind::Zip));
    assert_eq!(extract_entries("/x/a.7z"), Some(ArchiveKind::SevenZ));
    assert_eq!(extract_entries("/x/a.rar"), None);
}

#[test]
fn listing_replaces_members_of_the_same_name() {
    let mut l = ArchiveListing::new();
    l.insert("a.txt".to_string(), 1);
    l.insert("b.txt".to_string(), 2);
    l.insert("a.txt".to_string(), 3);
    assert_eq!(l.len(), 2);
    assert_eq!(l.fingerprints(), vec![3, 2]);
}

#[test]
fn overlapping_archives_grouped_by_pair() {
    assert_eq!(shared_members(&vec![1, 2, 3], &vec![3, 2, 9]), 2);
    let paths: Vec<String> = ["/a.zip", "/b.zip", "/c.7z"].iter().map(|s| s.to_string()).collect();
    let sizes = vec![500u64, 300, 900];
    let prints = vec![vec![1u64, 2, 3], vec![2, 3, 4], vec![9]];
    let groups = find_archive_duplicates(&paths, &sizes, &prints, 2);
    assert_eq!(groups.len(), 1);
    assert_eq!(groups[0].id, "a1");
    assert_eq!(groups[0].savable, 300);
    assert_eq!(groups[0].shared, Some(2));
    assert_eq!(groups[0].files[0].path, "/a.zip");
    assert_eq!(groups[0].files[0].total_files, Some(3));
    assert_eq!(groups[0].files[1].file_type, "archive");
    assert!(find_archive_duplicates(&paths, &sizes, &prints, 4).is_empty());
}

#[test]
fn pruning_keeps_files_whose_full_hash_is_shared() {
    // Heads are prefixes of the contents, full hashes the contents themselves.
    let contents = ["abcd", "abzz", "abcd", "qqqq", "qqqq"];
    let cands: Vec<usize> = (0..contents.len()).collect();
    let heads: Vec<Option<String>> = contents.iter().map(|c| Some(c[..2].to_string())).collect();
    let kept = shared_key_members(&cands, &heads);
    let full: Vec<Option<String>> = kept.iter().map(|&i| Some(contents[i].to_string())).collect();
    let (groups, _) = hash_groups(&kept, &full);
    assert_eq!(groups, vec![vec![0, 2], vec![3, 4]]);
    let full_all: Vec<Option<String>> = contents.iter().map(|c| Some(c.to_string())).collect();
    let (groups_all, _) = hash_groups(&cands, &full_all);
    assert_eq!(groups, groups_all);
}

#[test]
fn archive_members_read_up_to_one_mebibyte() {
    assert_eq!(member_action(true, 10), MemberAction::Skip);
    assert_eq!(member_action(false, 0), MemberAction::Skip);
    assert_eq!(member_action(false, 1), MemberAction::ReadContent);
    assert_eq!(member_action(false, 1024 * 1024), MemberAction::ReadContent);
    assert_eq!(member_action(false, 1024 * 1024 + 1), MemberAction::BySizeAndName);
}

#[test]
fn duplicate_plan_follows_the_options() {
    let p = duplicate_plan(true, true, 64);
    assert!(p.by_inode && p.by_head_and_tail);
    let q = duplicate_plan(true, false, 0);
    assert!(!q.by_inode && !q.by_head_and_tail);
}
