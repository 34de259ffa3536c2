use dup_finder::collector::{is_archive, is_image, is_video, should_ignore_builtin};

#[test]
fn test_is_image() {
    assert!(is_image("photo.jpg"));
    assert!(is_image("photo.JPEG"));
    assert!(!is_image("video.mp4"));
}

#[test]
fn kinds_by_extension() {
    assert!(is_video("/v/clip.MKV"));
    assert!(is_video("/v/stream.m2ts"));
    assert!(!is_video("/v/clip.mp3"));
    assert!(is_archive("/a/b.7z"));
    assert!(is_archive("/a/b.ZIP"));
    assert!(!is_archive("/a/b.tar"));
    assert!(!is_image("/a/noext"));
    assert!(!is_image("/a/.jpg"));
    assert!(is_image("/a/x.HeIf"));
}

#[test]
fn builtin_ignores() {
    assert!(should_ignore_builtin("/x/.DS_Store"));
    assert!(should_ignore_builtin("Thumbs.db"));
    assert!(should_ignore_builtin("/dl/movie.mkv.PART"));
    assert!(should_ignore_builtin("/t/a.tmp"));
    assert!(!should_ignore_builtin("/x/photo.jpg"));
    assert!(!should_ignore_builtin("/x/thumbs.db"));
}
