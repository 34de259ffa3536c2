use dup_finder::vhash::{frame_distance_total, sample_positions, gray_from_rgb, FrameSampler, FrameStep, similar_video_groups};

fn compare_frame_hashes(a: &[u64], b: &[u64]) -> f32 {
    match frame_distance_total(&a.to_vec(), &b.to_vec()) {
        Some(total) => total as f32 / a.len() as f32,
        None => f32::MAX,
    }
}

#[test]
fn test_compare_frame_hashes_identical() {
    let hashes = vec![0u64, 1u64, 2u64];
    assert_eq!(compare_frame_hashes(&hashes, &hashes), 0.0);
}

#[test]
fn test_compare_frame_hashes_different() {
    let a = vec![0u64];
    let b = vec![u64::MAX];
    assert_eq!(compare_frame_hashes(&a, &b), 64.0);
}

#[test]
fn frame_distance_takes_nearest_frame() {
    assert_eq!(frame_distance_total(&vec![0, 0xFF], &vec![0x0F, 0xFF, 0x01]), Some(1));
    assert_eq!(frame_distance_total(&vec![], &vec![1]), None);
    assert_eq!(frame_distance_total(&vec![1], &vec![]), None);
}

#[test]
fn sample_positions_skip_a_tenth_at_each_end() {
    assert_eq!(sample_positions(100, 10), vec![10, 18, 26, 34, 42, 50, 58, 66, 74, 82]);
    assert_eq!(sample_positions(1000, 1), vec![100]);
    assert_eq!(sample_positions(5, 3), vec![0, 1, 3]);
}

#[test]
fn gray_averages_the_three_channels() {
    let data = vec![30u8, 60, 90, 255, 255, 255, 1, 1, 0];
    assert_eq!(gray_from_rgb(&data, 3), vec![60, 255, 0]);
}

#[test]
fn sampler_takes_each_position_once() {
    let mut s = FrameSampler::new(vec![0, 2]);
    assert_eq!(s.on_frame(), FrameStep::Sample);
    assert_eq!(s.on_frame(), FrameStep::Skip);
    assert_eq!(s.on_frame(), FrameStep::Sample);
    assert_eq!(s.on_frame(), FrameStep::Finished);
    assert_eq!(s.samples_taken(), 2);
    assert_eq!(s.frames_seen(), 3);
}

#[test]
fn videos_joined_by_links_form_groups() {
    let paths = vec!["/a.mp4".to_string(), "/b.mp4".to_string(), "/c.mp4".to_string()];
    let sizes = vec![1000u64, 2000, 3000];
    let counts = vec![10u64, 9, 10];
    let links = vec![(0usize, 2usize, true)];
    let groups = similar_video_groups(&paths, &sizes, &counts, &links).unwrap();
    assert_eq!(groups.len(), 1);
    assert_eq!(groups[0].id, "v1");
    assert_eq!(groups[0].files.len(), 2);
    assert_eq!(groups[0].files[1].path, "/c.mp4");
    assert_eq!(groups[0].files[0].frame_count.as_deref(), Some("10"));
    assert_eq!(groups[0].category.as_deref(), Some("similar"));
    assert_eq!(groups[0].savable, 3000);
    assert_eq!(groups[0].savable_fmt, "2.9 KB");
}

#[test]
fn video_group_whose_saving_overflows_is_reported() {
    let paths = vec!["/a.mp4".to_string(), "/b.mp4".to_string(), "/c.mp4".to_string()];
    let sizes = vec![1u64, u64::MAX, 1];
    let counts = vec![1u64, 1, 1];
    let links = vec![(0usize, 1usize, false), (1usize, 2usize, false)];
    assert!(similar_video_groups(&paths, &sizes, &counts, &links).is_none());
    let apart = vec![(0usize, 1usize, false)];
    assert_eq!(similar_video_groups(&paths, &sizes, &counts, &apart).unwrap()[0].savable, u64::MAX);
}

#[test]
fn a_far_link_anywhere_makes_the_group_similar() {
    let paths = vec!["/a.mp4".to_string(), "/b.mp4".to_string(), "/c.mp4".to_string(), "/d.mp4".to_string()];
    let sizes = vec![1u64, 1, 1, 1];
    let counts = vec![1u64, 1, 1, 1];
    for links in [
        vec![(0usize, 1usize, true), (0usize, 2usize, false)],
        vec![(0usize, 2usize, false), (0usize, 1usize, true)],
        vec![(2usize, 0usize, false), (1usize, 2usize, true)],
    ] {
        let groups = similar_video_groups(&paths, &sizes, &counts, &links).unwrap();
        assert_eq!(groups.len(), 1);
        assert_eq!(groups[0].category.as_deref(), Some("similar"));
    }
    let near = vec![(0usize, 1usize, false), (2usize, 3usize, true), (1usize, 0usize, false)];
    let groups = similar_video_groups(&paths, &sizes, &counts, &near).unwrap();
    let cats: Vec<(String, Option<String>)> = groups.iter().map(|g| (g.files[0].path.clone(), g.category.clone())).collect();
    assert!(cats.contains(&("/a.mp4".to_string(), Some("exact".to_string()))));
    assert!(cats.contains(&("/c.mp4".to_string(), Some("similar".to_string()))));
}
