use simple_reader::bookmark::{BookmarkError, BookmarkStore};

fn memos(store: &BookmarkStore, path: &str) -> Vec<String> {
    store.get_bookmarks(path).iter().map(|b| b.memo.clone()).collect()
}

#[test]
fn bookmarks_are_added_and_listed() {
    let mut store = BookmarkStore::new();
    assert_eq!(store.get_bookmarks("/a.txt").len(), 0);
    store.add_bookmark("/a.txt", 10, 2, "first", "2024-01-01T00:00:00");
    store.add_bookmark("/a.txt", 20, 3, "second", "2024-01-02T00:00:00");
    store.add_bookmark("/b.txt", 5, 1, "other", "2024-01-03T00:00:00");
    let marks = store.get_bookmarks("/a.txt");
    assert_eq!(marks.len(), 2);
    assert_eq!(marks[0].position, 10);
    assert_eq!(marks[0].line, 2);
    assert_eq!(marks[0].memo, "first");
    assert_eq!(marks[0].created, "2024-01-01T00:00:00");
    assert_eq!(marks[1].memo, "second");
    let all = store.get_all_bookmarks();
    assert_eq!(all.len(), 2);
    assert_eq!(all[0].path, "/a.txt");
    assert_eq!(all[0].marks.last_opened, "2024-01-01T00:00:00");
    assert_eq!(all[0].marks.last_position, 0);
    assert!(!all[0].marks.favorite);
    assert_eq!(all[1].path, "/b.txt");
    assert_eq!(all[1].marks.bookmarks.len(), 1);
}

#[test]
fn bookmarks_are_removed_by_ordinal() {
    let mut store = BookmarkStore::new();
    for memo in ["a", "b", "c"] {
        store.add_bookmark("/f", 0, 0, memo, "t");
    }
    assert_eq!(store.remove_bookmark("/none", 0), Err(BookmarkError::FileNotFound));
    assert_eq!(store.remove_bookmark("/f", 3), Err(BookmarkError::IndexOutOfRange));
    assert_eq!(memos(&store, "/f"), vec!["a", "b", "c"]);
    assert_eq!(store.remove_bookmark("/f", 1), Ok(()));
    assert_eq!(memos(&store, "/f"), vec!["a", "c"]);
    assert_eq!(store.remove_bookmark("/f", 0), Ok(()));
    assert_eq!(store.remove_bookmark("/f", 0), Ok(()));
    assert_eq!(store.remove_bookmark("/f", 0), Err(BookmarkError::IndexOutOfRange));
    assert_eq!(store.get_all_bookmarks().len(), 1);
}

#[test]
fn bookmarks_are_moved() {
    let mut store = BookmarkStore::new();
    for memo in ["a", "b", "c", "d"] {
        store.add_bookmark("/f", 0, 0, memo, "t");
    }
    assert_eq!(store.move_bookmark("/f", 0, 2), Ok(()));
    assert_eq!(memos(&store, "/f"), vec!["b", "c", "a", "d"]);
    assert_eq!(store.move_bookmark("/f", 3, 0), Ok(()));
    assert_eq!(memos(&store, "/f"), vec!["d", "b", "c", "a"]);
    assert_eq!(store.move_bookmark("/f", 1, 1), Ok(()));
    assert_eq!(memos(&store, "/f"), vec!["d", "b", "c", "a"]);
    assert_eq!(store.move_bookmark("/f", 4, 0), Err(BookmarkError::IndexOutOfRange));
    assert_eq!(store.move_bookmark("/f", 0, 4), Err(BookmarkError::IndexOutOfRange));
    assert_eq!(store.move_bookmark("/g", 0, 0), Err(BookmarkError::FileNotFound));
}

#[test]
fn last_position_is_kept_for_tracked_files_only() {
    let mut store = BookmarkStore::new();
    store.save_last_position("/a", 7, 8, "t1");
    assert_eq!(store.get_last_position("/a"), None);
    assert_eq!(store.get_all_bookmarks().len(), 0);
    store.track_file_open("/a", "t0");
    assert_eq!(store.get_last_position("/a"), Some((0, 0)));
    store.save_last_position("/a", 7, 8, "t1");
    assert_eq!(store.get_last_position("/a"), Some((7, 8)));
    assert_eq!(store.get_all_bookmarks()[0].marks.last_opened, "t1");
    store.track_file_open("/a", "t2");
    assert_eq!(store.get_last_position("/a"), Some((7, 8)));
    assert_eq!(store.get_all_bookmarks()[0].marks.last_opened, "t2");
    assert_eq!(store.get_all_bookmarks().len(), 1);
}

#[test]
fn favorite_is_toggled() {
    let mut store = BookmarkStore::new();
    assert!(store.toggle_favorite("/new", "now"));
    assert_eq!(store.get_all_bookmarks().len(), 1);
    assert_eq!(store.get_all_bookmarks()[0].marks.last_opened, "now");
    assert!(store.get_all_bookmarks()[0].marks.favorite);
    assert!(!store.toggle_favorite("/new", "later"));
    assert!(!store.get_all_bookmarks()[0].marks.favorite);
    assert_eq!(store.get_all_bookmarks()[0].marks.last_opened, "now");
    assert!(store.toggle_favorite("/new", "later"));
}

#[test]
fn file_entry_is_removed_with_its_bookmarks() {
    let mut store = BookmarkStore::new();
    store.add_bookmark("/a", 1, 1, "m", "t");
    store.track_file_open("/b", "t");
    store.track_file_open("/c", "t");
    store.remove_file_entry("/b");
    store.remove_file_entry("/zzz");
    let all = store.get_all_bookmarks();
    assert_eq!(all.len(), 2);
    assert_eq!(all[0].path, "/a");
    assert_eq!(all[1].path, "/c");
    store.remove_file_entry("/a");
    assert_eq!(store.get_bookmarks("/a").len(), 0);
    assert_eq!(store.get_last_position("/a"), None);
}

#[test]
fn search_looks_at_file_names_and_memos() {
    let mut store = BookmarkStore::new();
    store.add_bookmark("/books/Dune.txt", 1, 1, "the spice", "t");
    store.add_bookmark("/books/Dune.txt", 2, 2, "Arrakis", "t");
    store.add_bookmark("/books/other.txt", 3, 3, "about DUNES", "t");
    store.add_bookmark("/dune/else.txt", 4, 4, "nothing", "t");
    let hits = store.search_bookmarks("dune");
    assert_eq!(hits.len(), 3);
    assert_eq!(hits[0].file_path, "/books/Dune.txt");
    assert_eq!(hits[0].file_name, "Dune.txt");
    assert_eq!(hits[0].bookmark.memo, "the spice");
    assert_eq!(hits[1].bookmark.memo, "Arrakis");
    assert_eq!(hits[2].file_name, "other.txt");
    assert_eq!(hits[2].bookmark.position, 3);
    assert_eq!(store.search_bookmarks("SPICE").len(), 1);
    assert_eq!(store.search_bookmarks("").len(), 4);
    assert_eq!(store.search_bookmarks("xyz").len(), 0);
    assert_eq!(store.search_bookmarks("the spice!").len(), 0);
}

#[test]
fn file_list_puts_placed_files_first_then_the_latest() {
    let mut store = BookmarkStore::new();
    store.track_file_open("/d/old.txt", "2024-01-01");
    store.track_file_open("/d/new.txt", "2024-03-01");
    store.track_file_open("/d/mid.txt", "2024-02-01");
    store.track_file_open("/d/two.txt", "2023-01-01");
    store.track_file_open("/d/one.txt", "2022-01-01");
    store.add_bookmark("/d/mid.txt", 1, 1, "m", "2024-02-02");
    let names: Vec<String> = store.get_file_list().iter().map(|e| e.file_name.clone()).collect();
    assert_eq!(names, vec!["new.txt", "mid.txt", "old.txt", "two.txt", "one.txt"]);
    store.reorder_file_list(&vec![
        "/d/one.txt".to_string(),
        "/d/unknown.txt".to_string(),
        "/d/two.txt".to_string(),
    ]);
    let list = store.get_file_list();
    let names: Vec<String> = list.iter().map(|e| e.file_name.clone()).collect();
    assert_eq!(names, vec!["one.txt", "two.txt", "new.txt", "mid.txt", "old.txt"]);
    assert_eq!(list[0].display_order, Some(0));
    assert_eq!(list[1].display_order, Some(2));
    assert_eq!(list[2].display_order, None);
    assert_eq!(list[3].bookmark_count, 1);
    assert_eq!(list[3].file_path, "/d/mid.txt");
    assert_eq!(list[3].last_opened, "2024-02-01");
    assert_eq!(store.get_all_bookmarks().len(), 5);
}

#[test]
fn reorder_takes_the_last_mention() {
    let mut store = BookmarkStore::new();
    store.track_file_open("/a", "t");
    store.track_file_open("/b", "t");
    store.reorder_file_list(&vec!["/a".to_string(), "/b".to_string(), "/a".to_string()]);
    let list = store.get_file_list();
    assert_eq!(list[0].file_path, "/b");
    assert_eq!(list[0].display_order, Some(1));
    assert_eq!(list[1].file_path, "/a");
    assert_eq!(list[1].display_order, Some(2));
}
