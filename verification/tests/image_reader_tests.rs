use std::cmp::Ordering;

use simple_reader::image_reader::{
    compare_natural, extract_series_prefix, file_name_or_empty, find_adjacent_zips,
    has_zip_extension, image_entries, is_image_extension, is_image_file, list_zip_images,
    lowered_name_of, natural_sort_cmp, natural_sort_key, read_zip_image, scan_directory_images,
    scan_folder_images, AdjacentError, ImageLocation, ImageSource,
};
use simple_reader::sorting::{Order, SortChunk};
use simple_reader::zip_fast::ZipError;

fn strings(items: &[&str]) -> Vec<String> {
    items.iter().map(|s| s.to_string()).collect()
}

fn text(s: &str) -> SortChunk {
    SortChunk::Text(s.chars().collect())
}

fn same_key(a: &[SortChunk], b: &[SortChunk]) -> bool {
    a.len() == b.len()
        && a.iter().zip(b.iter()).all(|(x, y)| match (x, y) {
            (SortChunk::Text(p), SortChunk::Text(q)) => p == q,
            (SortChunk::Num(p), SortChunk::Num(q)) => p == q,
            _ => false,
        })
}

fn put16(out: &mut Vec<u8>, v: u16) {
    out.extend_from_slice(&v.to_le_bytes());
}

fn put32(out: &mut Vec<u8>, v: u32) {
    out.extend_from_slice(&v.to_le_bytes());
}

fn stored_archive(items: &[(&str, &[u8])]) -> Vec<u8> {
    let mut out = Vec::new();
    let mut dir = Vec::new();
    for (name, data) in items {
        let at = out.len() as u32;
        put32(&mut out, 0x04034b50);
        out.extend_from_slice(&[20, 0, 0, 8, 0, 0, 0, 0, 0, 0, 0, 0, 0, 0]);
        put32(&mut out, data.len() as u32);
        put32(&mut out, data.len() as u32);
        put16(&mut out, name.len() as u16);
        put16(&mut out, 0);
        out.extend_from_slice(name.as_bytes());
        out.extend_from_slice(data);
        put32(&mut dir, 0x02014b50);
        dir.extend_from_slice(&[20, 0, 20, 0, 0, 8, 0, 0, 0, 0, 0, 0, 0, 0, 0, 0]);
        put32(&mut dir, data.len() as u32);
        put32(&mut dir, data.len() as u32);
        put16(&mut dir, name.len() as u16);
        dir.extend_from_slice(&[0; 12]);
        put32(&mut dir, at);
        dir.extend_from_slice(name.as_bytes());
    }
    let at = out.len() as u32;
    out.extend_from_slice(&dir);
    put32(&mut out, 0x06054b50);
    put16(&mut out, 0);
    put16(&mut out, 0);
    put16(&mut out, items.len() as u16);
    put16(&mut out, items.len() as u16);
    put32(&mut out, dir.len() as u32);
    put32(&mut out, at);
    put16(&mut out, 0);
    out
}

fn mapped(bytes: &[u8]) -> memmap2::Mmap {
    let mut map = memmap2::MmapMut::map_anon(bytes.len()).unwrap();
    map.copy_from_slice(bytes);
    map.make_read_only().unwrap()
}

#[test]
fn image_extensions_are_matched_exactly() {
    for ext in ["jpg", "jpeg", "png", "gif", "webp", "bmp", "svg"] {
        assert!(is_image_extension(ext));
    }
    assert!(!is_image_extension("PNG"));
    assert!(!is_image_extension("tiff"));
    assert!(!is_image_extension(""));
    assert!(!is_image_extension(".png"));
    assert!(!is_image_extension("zip"));
}

#[test]
fn image_files_are_told_by_their_ending_in_any_case() {
    assert!(is_image_file("a.png"));
    assert!(is_image_file("dir/Photo.JPEG"));
    assert!(is_image_file(".svg"));
    assert!(is_image_file("x.WebP"));
    assert!(!is_image_file("png"));
    assert!(!is_image_file("a.png.txt"));
    assert!(!is_image_file("apng"));
    assert!(!is_image_file(""));
    assert!(!is_image_file("a.png/"));
}

#[test]
fn natural_key_cuts_digits_from_text() {
    assert!(same_key(
        &natural_sort_key("Page10b"),
        &[text("page"), SortChunk::Num(10), text("b")]
    ));
    assert!(same_key(&natural_sort_key("007"), &[SortChunk::Num(7)]));
    assert!(same_key(&natural_sort_key(""), &[]));
    assert!(same_key(
        &natural_sort_key("a1b22"),
        &[text("a"), SortChunk::Num(1), text("b"), SortChunk::Num(22)]
    ));
    // A number that does not fit in 64 bits counts as 0.
    assert!(same_key(
        &natural_sort_key("n18446744073709551615"),
        &[text("n"), SortChunk::Num(u64::MAX)]
    ));
    assert!(same_key(
        &natural_sort_key("n18446744073709551616"),
        &[text("n"), SortChunk::Num(0)]
    ));
    // Only the digits 0 to 9 make numbers; the key is in lower case.
    assert!(same_key(&natural_sort_key("ÄB\u{0663}"), &[text("äb\u{0663}")]));
}

#[test]
fn natural_order_puts_page2_before_page10() {
    assert_eq!(compare_natural("d/page2.zip", "e/page10.zip"), Order::Less);
    assert_eq!(compare_natural("page10.zip", "page2.zip"), Order::Greater);
    assert_eq!(compare_natural("x/A1.zip", "y/a01.ZIP"), Order::Equal);
    assert_eq!(natural_sort_cmp("page2", "page10"), Ordering::Less);
    assert_eq!(natural_sort_cmp("page10", "page2"), Ordering::Greater);
    assert_eq!(natural_sort_cmp("same", "SAME"), Ordering::Equal);
    // A text comes before a number, and a key before the keys it starts.
    assert_eq!(compare_natural("a", "1"), Order::Less);
    assert_eq!(compare_natural("a", "a1"), Order::Less);
    // A path without a file name has the empty key.
    assert_eq!(compare_natural("..", "a"), Order::Less);
    assert_eq!(compare_natural("..", "/"), Order::Equal);
}

#[test]
fn source_lists_its_names() {
    let folder = ImageSource::Folder {
        dir_path: "/pics".to_string(),
        image_paths: strings(&["/pics/a.png", "/pics/sub/B.JPG", ".."]),
    };
    assert_eq!(folder.len(), 3);
    assert_eq!(folder.names(), strings(&["a.png", "B.JPG", ""]));
    let zip = ImageSource::Zip {
        zip_path: "/z.zip".to_string(),
        entry_names: strings(&["dir/1.png", "2.png"]),
    };
    assert_eq!(zip.len(), 2);
    assert_eq!(zip.names(), strings(&["dir/1.png", "2.png"]));
    assert_eq!(file_name_or_empty("/a/b/c.txt"), "c.txt");
    assert_eq!(file_name_or_empty("/"), "");
}

#[test]
fn source_says_where_an_image_is() {
    let folder = ImageSource::Folder {
        dir_path: "/pics".to_string(),
        image_paths: strings(&["/pics/a.png"]),
    };
    assert!(matches!(folder.locate(0), Some(ImageLocation::File(p)) if p == "/pics/a.png"));
    assert!(folder.locate(1).is_none());
    let zip = ImageSource::Zip {
        zip_path: "/z.zip".to_string(),
        entry_names: strings(&["dir/1.png", "2.png"]),
    };
    assert!(matches!(
        zip.locate(1),
        Some(ImageLocation::Entry { zip_path, entry_name }) if zip_path == "/z.zip" && entry_name == "2.png"
    ));
    assert!(zip.locate(2).is_none());
}

#[test]
fn archive_images_are_sorted_by_their_components() {
    let names = strings(&[
        "b/2.png",
        "a/10.png",
        "a/2.png",
        "a/",
        "readme.txt",
        "a/sub/1.png",
        "A.PNG",
        "a/dir.png/",
    ]);
    assert_eq!(
        image_entries(&names),
        strings(&["A.PNG", "a/10.png", "a/2.png", "a/sub/1.png", "b/2.png"])
    );
    assert_eq!(image_entries(&Vec::new()), Vec::<String>::new());
    // What is in a directory comes before the files whose names go on
    // behind the name of the directory.
    assert_eq!(
        image_entries(&strings(&["a.png", "a/x.png", "a-b.png"])),
        strings(&["a/x.png", "a-b.png", "a.png"])
    );
    let mut expected = strings(&["b/1.png", "a.png", "a/x.png", "a-b.png", "B/0.gif", "a/b/c.jpg"]);
    let given = expected.clone();
    expected.sort_by(|a, b| {
        let a_parts: Vec<&str> = a.split('/').collect();
        let b_parts: Vec<&str> = b.split('/').collect();
        a_parts.cmp(&b_parts)
    });
    assert_eq!(image_entries(&given), expected);
}

#[test]
fn mapped_archive_lists_and_reads_images() {
    let zip = stored_archive(&[("z/2.png", b"two"), ("notes.txt", b"n"), ("a/1.JPG", b"one")]);
    assert_eq!(list_zip_images(mapped(&zip)).unwrap(), strings(&["a/1.JPG", "z/2.png"]));
    assert_eq!(read_zip_image(mapped(&zip), "z/2.png").unwrap(), b"two".to_vec());
    assert_eq!(read_zip_image(mapped(&zip), "no").err(), Some(ZipError::EntryNotFound));
    assert_eq!(list_zip_images(mapped(&[1, 2, 3])).err(), Some(ZipError::TooSmall));
    assert_eq!(read_zip_image(mapped(&[0; 40]), "x").err(), Some(ZipError::EocdNotFound));
}

#[test]
fn folder_images_are_sorted_by_name_without_case() {
    let listing = strings(&["/d/c.txt", "/d/B.png", "/d/a.PNG", "/d/b.png", "/d/Z.gif"]);
    assert_eq!(
        scan_directory_images(&listing),
        strings(&["/d/a.PNG", "/d/B.png", "/d/b.png", "/d/Z.gif"])
    );
    let (images, at) = scan_folder_images("/d/b.png", &listing);
    assert_eq!(images.len(), 4);
    // The first image of that name, case left aside.
    assert_eq!(at, 1);
    assert_eq!(scan_folder_images("/d/z.GIF", &listing).1, 3);
    assert_eq!(scan_folder_images("/d/missing.png", &listing).1, 0);
    assert_eq!(scan_folder_images("/d/a.png", &Vec::new()), (Vec::new(), 0));
    assert_eq!(lowered_name_of("/X/Ab.PNG"), Some("ab.png".to_string()));
    assert_eq!(lowered_name_of("/"), None);
}

#[test]
fn series_prefix_is_what_stands_before_the_last_number() {
    assert_eq!(extract_series_prefix("Vol 12 ch 03"), "vol 12 ch ");
    assert_eq!(extract_series_prefix("NoDigits"), "nodigits");
    assert_eq!(extract_series_prefix("123"), "");
    assert_eq!(extract_series_prefix(""), "");
    assert_eq!(extract_series_prefix("Series 7 (final)"), "series ");
    assert_eq!(extract_series_prefix("만화 12"), "만화 ");
    // Digits of other scripts count as digits here.
    assert_eq!(extract_series_prefix("Book\u{0663}"), "book");
}

#[test]
fn neighbours_are_found_in_the_series() {
    let listing = strings(&[
        "/d/Series 10.zip",
        "/d/notes.txt",
        "/d/Series 2.zip",
        "/d/other.zip",
        "/d/Series 1.ZIP",
        "/d/pic.png",
    ]);
    assert_eq!(
        find_adjacent_zips("/d/Series 2.zip", &listing),
        Ok((Some("/d/Series 1.ZIP".to_string()), Some("/d/Series 10.zip".to_string())))
    );
    assert_eq!(
        find_adjacent_zips("/d/series 1.zip", &listing),
        Ok((None, Some("/d/Series 2.zip".to_string())))
    );
    assert_eq!(
        find_adjacent_zips("/d/Series 10.zip", &listing),
        Ok((Some("/d/Series 2.zip".to_string()), None))
    );
    // A series of one falls back to all archives of the directory.
    assert_eq!(
        find_adjacent_zips("/d/other.zip", &listing),
        Ok((None, Some("/d/Series 1.ZIP".to_string())))
    );
    assert_eq!(find_adjacent_zips("/d/absent 3.zip", &listing), Ok((None, None)));
    assert_eq!(find_adjacent_zips("/d/a.zip", &Vec::new()), Ok((None, None)));
    assert_eq!(find_adjacent_zips("/", &listing), Err(AdjacentError::NoFileName));
    assert!(has_zip_extension("a.ZiP"));
    assert!(!has_zip_extension("a.zip.txt"));
    assert!(!has_zip_extension("zip"));
}
