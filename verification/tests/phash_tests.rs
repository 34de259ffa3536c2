use dup_finder::phash::{compute_phash_from_pixels, hamming_distance, phash_from_luma9, BkTree};
use dup_finder::similarity::{find_similar_images, hash_hex};

#[test]
fn test_hamming_distance() {
    assert_eq!(hamming_distance(0b1010, 0b1010), 0);
    assert_eq!(hamming_distance(0b1010, 0b0101), 4);
    assert_eq!(hamming_distance(0u64, u64::MAX), 64);
}

#[test]
fn test_bktree_insert_find() {
    let mut tree = BkTree::new();
    tree.insert(0b0000_0000u64, 0);
    tree.insert(0b0000_0001u64, 1);
    tree.insert(0b1111_1111u64, 2);

    let results = tree.find(0b0000_0000u64, 2);
    let ids: Vec<usize> = results.iter().map(|(id, _)| *id).collect();
    assert!(ids.contains(&0));
    assert!(ids.contains(&1));
    assert!(!ids.contains(&2));
}

#[test]
fn bktree_reports_distances_and_keeps_first_id_of_a_hash() {
    let mut tree = BkTree::new();
    tree.insert(0xF0, 7);
    tree.insert(0xF0, 8);
    tree.insert(0xF1, 9);
    assert_eq!(tree.len(), 2);
    let mut found = tree.find(0xF0, 0);
    found.sort();
    assert_eq!(found, vec![(7, 0)]);
    let mut near = tree.find(0xF3, 2);
    near.sort();
    assert_eq!(near, vec![(7, 2), (9, 1)]);
}

#[test]
fn bktree_empty_finds_nothing() {
    let tree = BkTree::new();
    assert!(tree.find(42, 64).is_empty());
    assert_eq!(tree.len(), 0);
}

#[test]
fn phash_of_uniform_pixels_is_zero() {
    let pixels = vec![128u8; 32 * 32];
    assert_eq!(compute_phash_from_pixels(&pixels, 32), Some(0));
}

#[test]
fn phash_of_horizontal_gradient() {
    let mut pixels = Vec::new();
    for _y in 0..32u32 {
        for x in 0..32u32 {
            pixels.push(x as u8);
        }
    }
    assert_eq!(compute_phash_from_pixels(&pixels, 32), Some(0xAAAA_AAAA_AAAA_AAAA));
}

#[test]
fn phash_needs_enough_pixels() {
    let pixels = vec![0u8; 10];
    assert_eq!(compute_phash_from_pixels(&pixels, 32), None);
}

#[test]
fn phash_from_luma_rows_rising_by_one() {
    let mut pixels = Vec::new();
    for _y in 0..9u32 {
        for x in 0..9u32 {
            pixels.push((x * x) as u8);
        }
    }
    // differences 1,3,5,...,15 with mean 8: the last four columns are above it
    assert_eq!(phash_from_luma9(&pixels), 0xF0F0_F0F0_F0F0_F0F0);
}

#[test]
fn hash_hex_is_sixteen_lowercase_digits() {
    assert_eq!(hash_hex(0xAB), "00000000000000ab");
    assert_eq!(hash_hex(u64::MAX), "ffffffffffffffff");
}

#[test]
fn similar_images_grouped_exact_and_similar() {
    let paths = vec!["/a.jpg".to_string(), "/b.jpg".to_string(), "/c.jpg".to_string(), "/d.jpg".to_string()];
    let sizes = vec![100u64, 300, 200, 50];
    let hashes = vec![0u64, 0, 0b111, u64::MAX];
    let groups = find_similar_images(&paths, &sizes, &hashes, 0, 5).unwrap();
    assert_eq!(groups.len(), 1);
    let g = &groups[0];
    assert_eq!(g.id, "i1");
    assert_eq!(g.files.len(), 3);
    assert_eq!(g.files[0].path, "/a.jpg");
    assert!(g.files[0].keep);
    assert!(!g.files[1].keep);
    assert_eq!(g.savable, 500);
    assert_eq!(g.category.as_deref(), Some("similar"));
    assert_eq!(g.files[2].phash.as_deref(), Some("0000000000000007"));
}

#[test]
fn identical_images_form_an_exact_group() {
    let paths = vec!["/x.png".to_string(), "/y.png".to_string()];
    let sizes = vec![10u64, 20];
    let hashes = vec![5u64, 5];
    let groups = find_similar_images(&paths, &sizes, &hashes, 0, 10).unwrap();
    assert_eq!(groups.len(), 1);
    assert_eq!(groups[0].category.as_deref(), Some("exact"));
    assert_eq!(groups[0].savable, 20);
    assert_eq!(groups[0].savable_fmt, "20 B");
}

fn png_bytes() -> Vec<u8> {
    let img = image::RgbImage::from_fn(32, 24, |x, y| image::Rgb([(x * 8) as u8, (y * 10) as u8, ((x + y) * 3) as u8]));
    let mut out = std::io::Cursor::new(Vec::new());
    image::DynamicImage::ImageRgb8(img).write_to(&mut out, image::ImageFormat::Png).unwrap();
    out.into_inner()
}

#[test]
fn phash_of_encoded_image_is_that_of_its_thumbnail() {
    let bytes = png_bytes();
    let thumb = image::load_from_memory(&bytes)
        .unwrap()
        .resize_exact(9, 9, image::imageops::FilterType::Lanczos3)
        .grayscale()
        .to_luma8()
        .into_raw();
    assert_eq!(thumb.len(), 81);
    let expected = dup_finder::phash::phash_from_luma9(&thumb);
    assert_eq!(dup_finder::phash::compute_phash_of_bytes(&bytes, "png"), Some(expected));
    assert_eq!(dup_finder::phash::compute_phash_of_bytes(&bytes, "PNG"), Some(expected));
    assert_eq!(dup_finder::phash::compute_phash_of_bytes(&bytes, "txt"), None);
    assert_eq!(dup_finder::phash::compute_phash_of_bytes(&bytes, ""), None);
    assert_eq!(dup_finder::phash::compute_phash_of_bytes(b"not an image", "png"), None);
}
