use simple_reader::epub_reader::{EpubBook, EpubChapter};
use simple_reader::image_reader::{ImageLocation, ImageSource};
use simple_reader::tab_manager::{FileType, OpenKind, SwitchStep, TabError, TabManager};
use simple_reader::text_buffer::TextBuffer;

fn shown(step: Result<SwitchStep, TabError>) -> simple_reader::tab_manager::FileInfo {
    match step {
        Ok(SwitchStep::Shown(info)) => info,
        other => panic!("the tab should be shown, not {:?}", other),
    }
}

fn book() -> EpubBook {
    EpubBook {
        font_styles: "fonts".to_string(),
        chapters: vec![
            EpubChapter { title: "One".to_string(), html: "<p>1</p>".to_string() },
            EpubChapter { title: "Two".to_string(), html: "<p>2</p>".to_string() },
        ],
    }
}

#[test]
fn files_are_opened_by_their_kind() {
    assert_eq!(TabManager::kind_of("/a/b.txt", false, false), OpenKind::Missing);
    assert_eq!(TabManager::kind_of("/a/b.epub", true, true), OpenKind::Directory);
    assert_eq!(TabManager::kind_of("/a/b.EPUB", true, false), OpenKind::Epub);
    assert_eq!(TabManager::kind_of("/a/b.Pdf", true, false), OpenKind::Pdf);
    assert_eq!(TabManager::kind_of("/a/b.JPG", true, false), OpenKind::Image);
    assert_eq!(TabManager::kind_of("/a/b.svg", true, false), OpenKind::Image);
    assert_eq!(TabManager::kind_of("/a/b.zip", true, false), OpenKind::Zip);
    assert_eq!(TabManager::kind_of("/a/b.txt", true, false), OpenKind::Text);
    assert_eq!(TabManager::kind_of("/a/noext", true, false), OpenKind::Text);
    assert_eq!(TabManager::kind_of("/a/.zip", true, false), OpenKind::Text);
    assert_eq!(FileType::Image.name(), "image");
    assert_eq!(FileType::Text.name(), "text");
}

#[test]
fn opened_text_is_told_with_its_sizes() {
    let mut m = TabManager::new();
    assert_eq!(m.active_tab(), None);
    let info = m.open_text("/d/a.txt", TextBuffer::from_string("one\ntwo"), 3, 4);
    assert_eq!(info.id, "/d/a.txt");
    assert_eq!(info.name, "a.txt");
    assert_eq!(info.path, "/d/a.txt");
    assert_eq!((info.total_lines, info.total_chars), (2, 7));
    assert_eq!((info.last_position, info.last_scroll_offset), (3, 4));
    assert!(!info.is_modified);
    assert_eq!(info.file_type, "text");
    assert_eq!((info.total_chapters, info.total_images), (0, 0));
    assert_eq!(m.active_tab(), Some("/d/a.txt".to_string()));
    assert!(m.is_open("/d/a.txt"));
    assert!(!m.is_open("/d/b.txt"));
    assert_eq!(m.get_total_lines("/d/a.txt"), Ok(2));
    let chunk = m.get_text_chunk("/d/a.txt", 1, 99).unwrap();
    assert_eq!(chunk.lines, vec!["two"]);
    assert_eq!((chunk.start_line, chunk.end_line, chunk.total_lines), (1, 2, 2));
    assert_eq!(m.get_text_chunk("/x", 0, 1).err(), Some(TabError::TabNotFound));
    assert_eq!(m.get_file_path("/d/a.txt"), Ok("/d/a.txt".to_string()));
    assert_eq!(m.get_file_path("/x"), Err(TabError::TabNotFound));
}

#[test]
fn book_and_pdf_and_images_are_opened() {
    let mut m = TabManager::new();
    let info = m.open_epub("/b.epub", book(), 1, 0);
    assert_eq!((info.file_type.as_str(), info.total_chapters), ("epub", 2));
    assert_eq!(m.get_epub_chapter_html("/b.epub", 1), Ok("<p>2</p>".to_string()));
    assert_eq!(m.get_epub_chapter_html("/b.epub", 2), Err(TabError::ChapterNotFound));
    assert_eq!(m.get_epub_font_styles("/b.epub"), Ok("fonts".to_string()));
    assert_eq!(m.get_epub_chapter_infos("/b.epub").unwrap()[1].title, "Two");
    let info = m.open_pdf("/p.pdf", 0, 0);
    assert_eq!(info.file_type, "pdf");
    assert_eq!(m.get_epub_font_styles("/p.pdf"), Err(TabError::NotAnEpub));
    assert_eq!(m.get_image_list("/p.pdf"), Err(TabError::NotAnImage));
    assert_eq!(m.get_total_lines("/p.pdf"), Err(TabError::BufferNotLoaded));
    assert_eq!(m.get_image_count("/p.pdf"), 0);

    assert_eq!(
        m.open_image_directory("/pics", Vec::new(), 0, 0).err(),
        Some(TabError::NoImages)
    );
    assert!(!m.is_open("/pics"));
    let info = m
        .open_image_directory("/pics", vec!["/pics/a.png".to_string(), "/pics/b.png".to_string()], 1, 0)
        .unwrap();
    assert_eq!((info.name.as_str(), info.total_images, info.last_position), ("pics", 2, 1));
    assert_eq!(m.get_image_list("/pics"), Ok(vec!["a.png".to_string(), "b.png".to_string()]));
    assert_eq!(m.get_image_count("/pics"), 2);
    assert!(matches!(
        m.get_image_location("/pics", 1),
        Ok(Some(ImageLocation::File(p))) if p == "/pics/b.png"
    ));
    assert!(matches!(m.get_image_location("/pics", 2), Ok(None)));

    // An image opens its folder at itself, unless a position is handed in.
    let folder = || ImageSource::Folder {
        dir_path: "/f".to_string(),
        image_paths: vec!["/f/1.png".to_string(), "/f/2.png".to_string(), "/f/3.png".to_string()],
    };
    assert_eq!(m.open_image("/f/3.png", folder(), 2, 0, 0).last_position, 2);
    assert_eq!(m.open_image("/f/3.png", folder(), 2, 1, 0).last_position, 1);
    let zip = ImageSource::Zip { zip_path: "/z.zip".to_string(), entry_names: vec!["a".to_string()] };
    let info = m.open_image("/z.zip", zip, 5, 0, 7);
    assert_eq!((info.last_position, info.last_scroll_offset, info.total_images), (0, 7, 1));
    assert_eq!(m.active_tab(), Some("/z.zip".to_string()));
    let ids: Vec<String> = m.get_open_tabs().iter().map(|t| t.id.clone()).collect();
    assert_eq!(ids, vec!["/b.epub", "/p.pdf", "/pics", "/f/3.png", "/z.zip"]);
}

#[test]
fn switching_puts_unmodified_text_aside() {
    let mut m = TabManager::new();
    m.open_text("/a.txt", TextBuffer::from_string("aaa"), 0, 0);
    m.open_text("/b.txt", TextBuffer::from_string("b\nb"), 0, 0);
    // Opening does not put the text of the other tab aside; switching does.
    assert_eq!(m.get_total_lines("/a.txt"), Ok(1));
    let info = shown(m.switch_tab("/a.txt"));
    assert_eq!(info.total_chars, 3);
    assert_eq!(m.get_total_lines("/b.txt"), Err(TabError::BufferNotLoaded));
    assert_eq!(m.active_tab(), Some("/a.txt".to_string()));
    // The text that was put aside is asked for, and the tab stays behind.
    assert!(matches!(m.switch_tab("/b.txt"), Ok(SwitchStep::NeedBuffer(p)) if p == "/b.txt"));
    assert_eq!(m.active_tab(), Some("/a.txt".to_string()));
    assert_eq!(m.get_total_lines("/a.txt"), Err(TabError::BufferNotLoaded));
    m.restore_buffer("/b.txt", TextBuffer::from_string("b\nb\nb"));
    let info = shown(m.switch_tab("/b.txt"));
    assert_eq!(info.total_lines, 3);
    assert_eq!(m.active_tab(), Some("/b.txt".to_string()));
    // A modified text stays.
    m.restore_buffer("/a.txt", TextBuffer::from_string("aaa"));
    m.set_modified("/b.txt", true);
    shown(m.switch_tab("/a.txt"));
    assert_eq!(m.get_total_lines("/b.txt"), Ok(3));
    // Switching to the active tab changes nothing; an unknown id fails
    // after the active tab has made room.
    shown(m.switch_tab("/a.txt"));
    assert_eq!(m.get_total_lines("/a.txt"), Ok(1));
    assert!(matches!(m.switch_tab("/none"), Err(TabError::TabNotFound)));
    assert_eq!(m.get_total_lines("/a.txt"), Err(TabError::BufferNotLoaded));
    assert_eq!(m.active_tab(), Some("/a.txt".to_string()));
    let tabs = m.get_open_tabs();
    assert_eq!(tabs.len(), 2);
    assert!(tabs[0].is_active && !tabs[1].is_active);
    assert!(!tabs[0].is_modified && tabs[1].is_modified);
    assert_eq!(tabs[1].name, "b.txt");
    assert_eq!(tabs[1].file_type, "text");
}

#[test]
fn closing_tells_the_last_position() {
    let mut m = TabManager::new();
    m.open_pdf("/a.pdf", 1, 2);
    m.open_pdf("/b.pdf", 3, 4);
    m.open_pdf("/c.pdf", 5, 6);
    m.set_last_position("/b.pdf", 30, 40);
    m.set_last_position("/none", 1, 1);
    assert_eq!(m.close_tab("/none"), Err(TabError::TabNotFound));
    assert_eq!(m.close_tab("/b.pdf"), Ok((30, 40)));
    assert_eq!(m.active_tab(), Some("/c.pdf".to_string()));
    assert_eq!(m.close_tab("/c.pdf"), Ok((5, 6)));
    assert_eq!(m.active_tab(), Some("/a.pdf".to_string()));
    assert_eq!(m.close_tab("/a.pdf"), Ok((1, 2)));
    assert_eq!(m.active_tab(), None);
    assert_eq!(m.get_open_tabs().len(), 0);
}

#[test]
fn text_is_taken_out_for_editing_and_given_back() {
    let mut m = TabManager::new();
    m.open_text("/a.txt", TextBuffer::from_string("abc"), 0, 0);
    let mut buffer = m.take_buffer("/a.txt").unwrap();
    assert!(matches!(m.take_buffer("/a.txt"), Err(TabError::BufferNotLoaded)));
    assert!(matches!(m.take_buffer("/none"), Err(TabError::TabNotFound)));
    buffer.insert_text(3, "d");
    m.restore_buffer("/a.txt", buffer);
    m.restore_buffer("/none", TextBuffer::new());
    assert_eq!(m.get_buffer("/a.txt").unwrap().to_string_full(), "abcd");
    assert!(m.get_buffer("/a.txt").unwrap().is_modified);
    // Opening the same path again puts the new tab in the place of the old.
    m.open_text("/a.txt", TextBuffer::from_string("new"), 0, 0);
    assert_eq!(m.get_open_tabs().len(), 1);
    assert_eq!(m.get_buffer("/a.txt").unwrap().to_string_full(), "new");
}
