use std::cmp::Ordering;
use image_viewer::catalog::{
    asset_url, compare_names, compare_strs, get_supported_image_extensions, is_listed_extension, is_supported_extension, paginate,
    FileEntry,
};

fn listing(n: usize) -> Vec<FileEntry> {
    (0..n)
        .map(|i| FileEntry {
            name: format!("img{:03}.png", i),
            path: format!("/pics/img{:03}.png", i),
            is_directory: false,
            is_image: true,
            size: None,
            last_modified: None,
        })
        .collect()
}

#[test]
fn supported_extension_list() {
    assert_eq!(
        get_supported_image_extensions(),
        vec!["jpg", "jpeg", "png", "gif", "webp", "bmp", "tiff", "tif", "ico"]
    );
}

#[test]
fn extension_check_ignores_case() {
    assert!(is_supported_extension("JPG"));
    assert!(is_supported_extension("Tiff"));
    assert!(is_supported_extension("png"));
    assert!(!is_supported_extension("txt"));
    assert!(!is_supported_extension(""));
    assert!(!is_listed_extension("JPG"));
    assert!(is_listed_extension("jpeg"));
}

#[test]
fn paginate_defaults() {
    let page = paginate(listing(3), None, None);
    assert_eq!(page.offset, 0);
    assert_eq!(page.limit, 500);
    assert_eq!(page.total_count, 3);
    assert!(!page.has_more);
    assert_eq!(page.entries.len(), 3);
}

#[test]
fn paginate_middle_page() {
    let page = paginate(listing(10), Some(4), Some(3));
    assert_eq!(page.total_count, 10);
    assert!(page.has_more);
    let names: Vec<&str> = page.entries.iter().map(|e| e.name.as_str()).collect();
    assert_eq!(names, vec!["img004.png", "img005.png", "img006.png"]);
}

#[test]
fn paginate_last_page_and_past_end() {
    let page = paginate(listing(10), Some(8), Some(5));
    assert!(!page.has_more);
    assert_eq!(page.entries.len(), 2);
    let page = paginate(listing(10), Some(10), Some(5));
    assert!(!page.has_more);
    assert!(page.entries.is_empty());
    let page = paginate(listing(10), Some(usize::MAX), Some(usize::MAX));
    assert!(page.entries.is_empty());
    assert_eq!(page.total_count, 10);
}

#[test]
fn asset_url_uses_forward_slashes() {
    assert_eq!(asset_url("C:\\pics\\a b.png"), "asset://localhost/C:/pics/a b.png");
    assert_eq!(asset_url("/home/u/x.jpg"), "asset://localhost//home/u/x.jpg");
    assert_eq!(asset_url(""), "asset://localhost/");
}

#[test]
fn names_compare_without_case() {
    assert_eq!(compare_names("b.png", "A.png"), Ordering::Greater);
    assert_eq!(compare_names("B", "a"), Ordering::Greater);
    assert_eq!(compare_strs("B", "a"), Ordering::Less);
    assert_eq!(compare_names("IMG.PNG", "img.png"), Ordering::Equal);
    assert_eq!(compare_strs("ab", "abc"), Ordering::Less);
    assert_eq!(compare_strs("abc", "ab"), Ordering::Greater);
    assert_eq!(compare_strs("", ""), Ordering::Equal);
    assert_eq!(compare_strs("\u{e9}", "z"), Ordering::Greater);
    let mut names = vec!["b.png", "C.png", "a.png", "B.jpg"];
    names.sort_by(|x, y| compare_names(x, y));
    assert_eq!(names, vec!["a.png", "B.jpg", "b.png", "C.png"]);
}
