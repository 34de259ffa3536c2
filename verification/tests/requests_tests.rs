use dup_finder::requests::{is_video_ext, needs_remux_format, remux_file_name, DeleteRequest, OpenFinderRequest,
    PickCacheFileRequest, ScanStartResponse};

#[test]
fn finder_targets() {
    assert_eq!(OpenFinderRequest { path: None }.target(), None);
    assert_eq!(OpenFinderRequest { path: Some(String::new()) }.target(), None);
    assert_eq!(OpenFinderRequest { path: Some("/x/a.zip::in/b.jpg".to_string()) }.target(), Some("/x/a.zip".to_string()));
    assert_eq!(OpenFinderRequest { path: Some("/x/b.jpg".to_string()) }.target(), Some("/x/b.jpg".to_string()));
}

#[test]
fn delete_targets_skip_archive_members() {
    let req = DeleteRequest { paths: vec!["/a".to_string(), "/b.zip::c".to_string(), "/d".to_string()] };
    assert_eq!(req.targets(), vec!["/a".to_string(), "/d".to_string()]);
}

#[test]
fn small_answers() {
    assert_eq!(ScanStartResponse::started().status, "started");
    assert!(PickCacheFileRequest { mode: "save".to_string() }.is_save());
    assert!(!PickCacheFileRequest { mode: "open".to_string() }.is_save());
}

#[test]
fn video_extensions_for_remux() {
    assert!(is_video_ext("/v/a.TS"));
    assert!(is_video_ext("/v/a.m2ts"));
    assert!(!is_video_ext("/v/a.webm"));
    assert!(!is_video_ext("/v/noext"));
    assert!(needs_remux_format("mpegts"));
    assert!(needs_remux_format("mpeg"));
    assert!(needs_remux_format("asf"));
    assert!(!needs_remux_format("mov,mp4,m4a,3gp,3g2,mj2"));
    assert!(!needs_remux_format("mpeg4"));
    assert_eq!(remux_file_name(0x1f), "000000000000001f.mp4");
}
