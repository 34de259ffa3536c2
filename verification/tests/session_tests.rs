use dup_finder::model::{FileEntry, Group, ScanResult};
use dup_finder::session::{deletable, no_result_detail, not_scanning_detail, prune_groups, ScanState, ScanStatus, StartError};

fn file(path: &str, size: u64) -> FileEntry {
    FileEntry { path: path.to_string(), size, file_type: "file".to_string(), ..Default::default() }
}

fn group(id: &str, paths: &[&str]) -> Group {
    Group { id: id.to_string(), files: paths.iter().map(|p| file(p, 1)).collect(), ..Default::default() }
}

#[test]
fn scan_starts_and_refuses_a_second_start() {
    let mut st = ScanState::new();
    st.push_log("old".to_string());
    let r = st.begin_scan(vec!["/a".to_string()], &vec![true], "20240101_000000".to_string(), "u-1".to_string());
    assert!(r.is_ok());
    assert_eq!(st.status, ScanStatus::Scanning);
    assert!(st.log.is_empty());
    assert_eq!(st.timestamp.as_deref(), Some("20240101_000000"));
    assert_eq!(st.session_uuid.as_deref(), Some("u-1"));
    let again = st.begin_scan(vec!["/b".to_string()], &vec![true], "t".to_string(), "u-2".to_string());
    assert_eq!(again, Err(StartError::AlreadyScanning));
    assert_eq!(st.paths, vec!["/a".to_string()]);
    assert_eq!(StartError::AlreadyScanning.detail(), "스캔이 이미 진행 중입니다");
}

#[test]
fn scan_refuses_a_missing_folder() {
    let mut st = ScanState::new();
    let r = st.begin_scan(
        vec!["/ok".to_string(), "/gone".to_string(), "/also".to_string()],
        &vec![true, false, false],
        "t".to_string(),
        "u".to_string(),
    );
    assert_eq!(r, Err(StartError::NotADirectory("/gone".to_string())));
    assert_eq!(st.status, ScanStatus::Idle);
    assert_eq!(StartError::NotADirectory("/gone".to_string()).detail(), "디렉토리가 존재하지 않아요: /gone");
}

#[test]
fn log_keeps_the_last_five_hundred_lines() {
    let mut st = ScanState::new();
    for i in 0..505 {
        st.push_log(format!("line {}", i));
    }
    assert_eq!(st.log.len(), 500);
    assert_eq!(st.log[0], "line 5");
    assert_eq!(st.log[499], "line 504");
}

#[test]
fn finish_cancel_and_reset() {
    let mut st = ScanState::new();
    assert!(!st.cancel());
    st.begin_scan(vec![], &vec![], "t".to_string(), "u".to_string()).unwrap();
    assert!(st.cancel());
    assert_eq!(st.status, ScanStatus::Cancelled);
    assert_eq!(st.log.last().map(|s| s.as_str()), Some("중단됨"));
    st.finish(Ok(ScanResult::default()));
    assert_eq!(st.status, ScanStatus::Cancelled);
    assert!(st.result.is_none());
    st.finish(Err("disk".to_string()));
    assert_eq!(st.status, ScanStatus::Error);
    assert_eq!(st.log.last().map(|s| s.as_str()), Some("오류: disk"));
    st.reset();
    assert_eq!(st.status, ScanStatus::Idle);
    assert!(st.log.is_empty() && st.result.is_none() && st.timestamp.is_none());
    assert_eq!(not_scanning_detail(), "스캔 중이 아닙니다");
}

#[test]
fn finished_scan_keeps_its_result() {
    let mut st = ScanState::new();
    st.begin_scan(vec![], &vec![], "t".to_string(), "u".to_string()).unwrap();
    let mut res = ScanResult::default();
    res.regular.push(group("r1", &["/a", "/b"]));
    st.finish(Ok(res));
    assert_eq!(st.status, ScanStatus::Done);
    assert_eq!(st.result.as_ref().map(|r| r.regular.len()), Some(1));
}

#[test]
fn check_files_drops_missing_files_and_empty_groups() {
    let mut st = ScanState::new();
    assert!(st.check_files(&vec![]).is_none());
    assert_eq!(no_result_detail(), "스캔 결과가 없습니다");
    let mut res = ScanResult::default();
    res.regular.push(group("r1", &["/a", "/b"]));
    res.image.push(group("i1", &["/c"]));
    st.result = Some(res);
    let missing = st.check_files(&vec!["/b".to_string(), "/c".to_string()]).unwrap();
    assert_eq!(missing, vec!["/b".to_string(), "/c".to_string()]);
    let r = st.result.as_ref().unwrap();
    assert_eq!(r.regular.len(), 1);
    assert_eq!(r.regular[0].files.len(), 1);
    assert!(r.image.is_empty());
    assert_eq!(st.log.last().map(|s| s.as_str()), Some("[파일 확인 완료] 없는 파일 2개 제거됨"));
    let none = st.check_files(&vec![]).unwrap();
    assert!(none.is_empty());
    assert_eq!(st.log.last().map(|s| s.as_str()), Some("[파일 확인 완료] 전체 정상"));
}

#[test]
fn deletions_drop_groups_left_with_one_file() {
    let mut st = ScanState::new();
    let mut res = ScanResult::default();
    res.regular.push(group("r1", &["/a", "/b", "/c"]));
    res.video.push(group("v1", &["/x", "/y"]));
    st.result = Some(res);
    st.apply_deletions(&vec![], 3);
    assert!(st.log.is_empty());
    st.apply_deletions(&vec!["/a".to_string(), "/y".to_string()], 1);
    let r = st.result.as_ref().unwrap();
    assert_eq!(r.regular[0].files.len(), 2);
    assert!(r.video.is_empty());
    assert_eq!(st.log.last().map(|s| s.as_str()), Some("[삭제 완료] 2개 성공 / 1개 실패"));
    st.apply_deletions(&vec!["/b".to_string()], 0);
    assert_eq!(st.log.last().map(|s| s.as_str()), Some("[삭제 완료] 1개 성공"));
    assert!(st.result.as_ref().unwrap().regular.is_empty());
}

#[test]
fn pruning_reports_removed_paths_in_order() {
    let groups = vec![group("g1", &["/p", "/q"]), group("g2", &["/q", "/r"])];
    let (kept, gone) = prune_groups(groups, &vec!["/q".to_string()], 1);
    assert_eq!(kept.len(), 2);
    assert_eq!(gone, vec!["/q".to_string(), "/q".to_string()]);
    assert_eq!(kept[1].id, "g2");
    assert_eq!(kept[1].files[0].path, "/r");
}

#[test]
fn archive_members_are_not_deleted() {
    assert!(deletable("/x/a.txt"));
    assert!(!deletable("/x/a.zip::inner.txt"));
}
