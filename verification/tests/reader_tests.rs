use dup_finder::reader::{CacheEntry, CacheState, ExplorerNode, ImageEntry};
use dup_finder::scanner::{entry_action, explorer_nodes, extension_of, is_supported_archive, is_supported_image,
    natural_cmp, order_images, should_ignore, sort_node, DirEntryInfo, EntryAction};
use std::cmp::Ordering;

fn page(key: &str, index: usize) -> CacheEntry {
    CacheEntry {
        key: key.to_string(),
        source_path: "/books/a.cbz".to_string(),
        source_name: "a.cbz".to_string(),
        image_index: index,
        image_path: format!("p{}.jpg", index),
        last_accessed_at_ms: 0,
    }
}

#[test]
fn cache_get_after_insert() {
    let mut c = CacheState::new();
    c.insert(page("a", 1));
    assert_eq!(c.get("a").map(|e| e.image_index), Some(1));
    assert!(c.get("zzz").is_none());
    assert_eq!(c.len(), 1);
}

#[test]
fn cache_insert_replaces_same_key() {
    let mut c = CacheState::new();
    c.insert(page("a", 1));
    c.insert(page("a", 2));
    assert_eq!(c.len(), 1);
    assert_eq!(c.get("a").map(|e| e.image_index), Some(2));
}

#[test]
fn cache_evicts_least_recently_used() {
    let mut c = CacheState::new();
    c.insert(page("a", 1));
    c.insert(page("b", 2));
    c.insert(page("c", 3));
    assert!(c.get("a").is_some());
    assert_eq!(c.remove_oldest().map(|e| e.key), Some("b".to_string()));
    assert_eq!(c.remove_oldest().map(|e| e.key), Some("c".to_string()));
    assert_eq!(c.remove_oldest().map(|e| e.key), Some("a".to_string()));
    assert!(c.remove_oldest().is_none());
    assert_eq!(c.len(), 0);
}

#[test]
fn cache_reinsert_moves_to_back() {
    let mut c = CacheState::default();
    c.insert(page("a", 1));
    c.insert(page("b", 2));
    c.insert(page("a", 3));
    assert_eq!(c.remove_oldest().map(|e| e.key), Some("b".to_string()));
}

#[test]
fn supported_files_by_extension() {
    assert!(is_supported_image("/x/A.JPG"));
    assert!(is_supported_image("/x/b.avif"));
    assert!(!is_supported_image("/x/b.heif"));
    assert!(is_supported_archive("/x/c.CBZ"));
    assert!(!is_supported_archive("/x/c.7z"));
    assert_eq!(extension_of("/x/A.Tiff"), Some("tiff".to_string()));
    assert_eq!(extension_of("/x/noext"), None);
}

#[test]
fn hidden_entries_are_ignored() {
    assert!(should_ignore("/x/.hidden"));
    assert!(!should_ignore("/x/shown.jpg"));
    assert!(!should_ignore("/"));
}

#[test]
fn names_compare_case_insensitively() {
    assert_eq!(natural_cmp("apple", "Banana"), Ordering::Less);
    assert_eq!(natural_cmp("ABC", "abc"), Ordering::Equal);
    assert_eq!(natural_cmp("b", "A"), Ordering::Greater);
    assert_eq!(natural_cmp("a", "ab"), Ordering::Less);
}

#[test]
fn folders_sort_before_files() {
    let dir = ExplorerNode { path: "/z".to_string(), name: "z".to_string(), is_directory: true, is_supported_file: false };
    let file = ExplorerNode { path: "/a.jpg".to_string(), name: "a.jpg".to_string(), is_directory: false, is_supported_file: true };
    assert_eq!(sort_node(&dir, &file), Ordering::Less);
    assert_eq!(sort_node(&file, &dir), Ordering::Greater);
}

fn info(path: &str, name: &str, is_directory: bool) -> DirEntryInfo {
    DirEntryInfo { path: path.to_string(), name: name.to_string(), is_directory, is_file: !is_directory }
}

#[test]
fn explorer_lists_folders_then_supported_files_by_name() {
    let entries = vec![
        info("/d/b.png", "b.png", false),
        info("/d/notes.txt", "notes.txt", false),
        info("/d/Comics", "Comics", true),
        info("/d/.git", ".git", true),
        info("/d/A.zip", "A.zip", false),
        info("/d/art", "art", true),
    ];
    let nodes = explorer_nodes(&entries);
    let names: Vec<&str> = nodes.iter().map(|n| n.name.as_str()).collect();
    assert_eq!(names, vec!["art", "Comics", "A.zip", "b.png"]);
    assert!(nodes[2].is_supported_file);
    assert!(!nodes[0].is_supported_file);
}

#[test]
fn scan_actions() {
    assert_eq!(entry_action("/d/.cache", true, false), EntryAction::Skip);
    assert_eq!(entry_action("/d/sub", true, false), EntryAction::Descend);
    assert_eq!(entry_action("/d/p.webp", false, true), EntryAction::Take);
    assert_eq!(entry_action("/d/p.txt", false, true), EntryAction::Skip);
}

#[test]
fn images_ordered_and_numbered() {
    let found = vec![
        ImageEntry { index: 0, path: "/d/b.jpg".to_string(), name: "b.jpg".to_string() },
        ImageEntry { index: 0, path: "/d/A.jpg".to_string(), name: "A.jpg".to_string() },
        ImageEntry { index: 0, path: "/e/a.JPG".to_string(), name: "a.JPG".to_string() },
        ImageEntry { index: 0, path: "/d/c.jpg".to_string(), name: "c.jpg".to_string() },
    ];
    let out = order_images(found);
    let paths: Vec<&str> = out.iter().map(|e| e.path.as_str()).collect();
    assert_eq!(paths, vec!["/d/A.jpg", "/e/a.JPG", "/d/b.jpg", "/d/c.jpg"]);
    let idx: Vec<usize> = out.iter().map(|e| e.index).collect();
    assert_eq!(idx, vec![0, 1, 2, 3]);
}

#[test]
fn eviction_follows_last_use() {
    let mut c = CacheState::new();
    c.insert(page("a", 1));
    c.insert(page("b", 2));
    c.insert(page("c", 3));
    assert!(c.get("a").is_some());
    assert!(c.get("missing").is_none());
    c.insert(page("b", 4));
    assert!(c.remove_oldest().is_some());
    c.insert(page("d", 5));
    assert_eq!(c.len(), 3);
    let order: Vec<String> = std::iter::from_fn(|| c.remove_oldest().map(|e| e.key)).collect();
    assert_eq!(order, vec!["a".to_string(), "b".to_string(), "d".to_string()]);
    assert_eq!(c.len(), 0);
}
