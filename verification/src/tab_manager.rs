//! The open files: one tab for each, one of them active.
//!
//! The manager keeps what is open and decides what a request comes to. It
//! reads no file: what has to be loaded is said, and handed in once it is
//! loaded.

use vstd::prelude::*;

use crate::epub_reader::{ChapterInfo, EpubBook};
use crate::image_reader::{is_image_extension, name_of, ImageLocation, ImageSource};
use crate::outside::{
    extension_of, file_name_of, line_count, line_text, lowercased, path_extension, path_file_name,
};
use crate::text::str_eq;
use crate::text_buffer::{clamped, TextBuffer};

verus! {

/// What kind of file a tab shows.
#[derive(Debug, Clone, Copy, PartialEq, Eq, Structural)]
pub enum FileType {
    Text,
    Epub,
    Pdf,
    Image,
}

impl FileType {
    /// The name of the kind.
    pub open spec fn spec_name(self) -> Seq<char> {
        match self {
            FileType::Text => "text"@,
            FileType::Epub => "epub"@,
            FileType::Pdf => "pdf"@,
            FileType::Image => "image"@,
        }
    }

    /// The name of the kind.
    pub fn name(self) -> (name: &'static str)
        ensures
            name@ == self.spec_name(),
    {
        match self {
            FileType::Text => "text",
            FileType::Epub => "epub",
            FileType::Pdf => "pdf",
            FileType::Image => "image",
        }
    }
}

/// One open file.
pub struct Tab {
    pub path: String,
    pub buffer: Option<TextBuffer>,
    pub epub_book: Option<EpubBook>,
    pub image_source: Option<ImageSource>,
    pub last_position: usize,
    pub last_scroll_offset: usize,
    pub is_modified: bool,
    pub file_type: FileType,
}

/// One open file, as a value.
pub struct TabView {
    pub path: Seq<char>,
    pub buffer: Option<TextBuffer>,
    pub epub_book: Option<EpubBook>,
    pub image_source: Option<ImageSource>,
    pub last_position: nat,
    pub last_scroll_offset: nat,
    pub is_modified: bool,
    pub file_type: FileType,
}

impl View for Tab {
    type V = TabView;

    open spec fn view(&self) -> TabView {
        TabView {
            path: self.path@,
            buffer: self.buffer,
            epub_book: self.epub_book,
            image_source: self.image_source,
            last_position: self.last_position as nat,
            last_scroll_offset: self.last_scroll_offset as nat,
            is_modified: self.is_modified,
            file_type: self.file_type,
        }
    }
}

/// What is told of a file when it is opened or shown.
#[derive(Debug)]
pub struct FileInfo {
    pub id: String,
    pub name: String,
    pub path: String,
    pub total_lines: usize,
    pub total_chars: usize,
    pub last_position: usize,
    pub last_scroll_offset: usize,
    pub is_modified: bool,
    pub file_type: String,
    pub total_chapters: usize,
    pub total_images: usize,
}

/// What is told of a file, as a value.
pub struct FileInfoView {
    pub id: Seq<char>,
    pub name: Seq<char>,
    pub path: Seq<char>,
    pub total_lines: nat,
    pub total_chars: nat,
    pub last_position: nat,
    pub last_scroll_offset: nat,
    pub is_modified: bool,
    pub file_type: Seq<char>,
    pub total_chapters: nat,
    pub total_images: nat,
}

impl View for FileInfo {
    type V = FileInfoView;

    open spec fn view(&self) -> FileInfoView {
        FileInfoView {
            id: self.id@,
            name: self.name@,
            path: self.path@,
            total_lines: self.total_lines as nat,
            total_chars: self.total_chars as nat,
            last_position: self.last_position as nat,
            last_scroll_offset: self.last_scroll_offset as nat,
            is_modified: self.is_modified,
            file_type: self.file_type@,
            total_chapters: self.total_chapters as nat,
            total_images: self.total_images as nat,
        }
    }
}

/// What the tab bar shows of one tab.
#[derive(Debug)]
pub struct TabInfo {
    pub id: String,
    pub name: String,
    pub path: String,
    pub is_active: bool,
    pub is_modified: bool,
    pub file_type: String,
}

/// What the tab bar shows of one tab, as a value.
pub struct TabInfoView {
    pub id: Seq<char>,
    pub name: Seq<char>,
    pub path: Seq<char>,
    pub is_active: bool,
    pub is_modified: bool,
    pub file_type: Seq<char>,
}

impl View for TabInfo {
    type V = TabInfoView;

    open spec fn view(&self) -> TabInfoView {
        TabInfoView {
            id: self.id@,
            name: self.name@,
            path: self.path@,
            is_active: self.is_active,
            is_modified: self.is_modified,
            file_type: self.file_type@,
        }
    }
}

/// Some lines of a text, and which.
#[derive(Debug)]
pub struct TextChunk {
    pub lines: Vec<String>,
    pub start_line: usize,
    pub end_line: usize,
    pub total_lines: usize,
}

/// Why a request for a tab failed.
#[derive(Debug, Clone, Copy, PartialEq, Eq, Structural)]
pub enum TabError {
    /// No tab has this id.
    TabNotFound,
    /// The text of the tab is not loaded.
    BufferNotLoaded,
    /// The tab shows no book.
    NotAnEpub,
    /// The tab shows no images.
    NotAnImage,
    /// The book has no such chapter.
    ChapterNotFound,
    /// The directory holds no image.
    NoImages,
}

/// How a file that is not open yet is to be opened.
#[derive(Debug, Clone, Copy, PartialEq, Eq, Structural)]
pub enum OpenKind {
    /// Nothing is at the path.
    Missing,
    /// A directory: its images are shown.
    Directory,
    /// A book.
    Epub,
    /// A PDF.
    Pdf,
    /// An archive of images.
    Zip,
    /// An image: the images of its folder are shown.
    Image,
    /// Anything else is text.
    Text,
}

/// What a switch to a tab has come to.
#[derive(Debug)]
pub enum SwitchStep {
    /// The tab is active; this is what it shows.
    Shown(FileInfo),
    /// The text of the tab was put aside: load the file at this path, hand
    /// it in with [`TabManager::restore_buffer`], and switch again.
    NeedBuffer(String),
}

/// One tab under its id.
pub struct TabEntry {
    pub id: String,
    pub tab: Tab,
}

/// One tab under its id, as a value.
pub struct EntryView {
    pub id: Seq<char>,
    pub tab: TabView,
}

impl View for TabEntry {
    type V = EntryView;

    open spec fn view(&self) -> EntryView {
        EntryView { id: self.id@, tab: self.tab@ }
    }
}

// ── the model ───────────────────────────────────────────────────────

/// The extension of a path in lower case, empty where it has none.
pub open spec fn lower_extension(path: Seq<char>) -> Seq<char> {
    match path_extension(path) {
        Some(e) => lowercased(e),
        None => Seq::empty(),
    }
}

/// How the file at a path is opened, given whether anything is there and
/// whether it is a directory.
pub open spec fn open_kind(path: Seq<char>, exists: bool, is_dir: bool) -> OpenKind {
    let ext = lower_extension(path);
    if !exists {
        OpenKind::Missing
    } else if is_dir {
        OpenKind::Directory
    } else if ext == "epub"@ {
        OpenKind::Epub
    } else if ext == "pdf"@ {
        OpenKind::Pdf
    } else if crate::image_reader::image_extensions().contains(ext) {
        OpenKind::Image
    } else if ext == "zip"@ {
        OpenKind::Zip
    } else {
        OpenKind::Text
    }
}

/// The first tab from `from` on that has the id.
pub open spec fn tab_from(entries: Seq<EntryView>, id: Seq<char>, from: int) -> Option<int>
    decreases entries.len() - from,
{
    if from < 0 || from >= entries.len() {
        None
    } else if entries[from].id == id {
        Some(from)
    } else {
        tab_from(entries, id, from + 1)
    }
}

/// Where the tab of an id stands.
pub open spec fn tab_index(entries: Seq<EntryView>, id: Seq<char>) -> Option<int> {
    tab_from(entries, id, 0)
}

/// The tab of an id.
pub open spec fn tab_of(entries: Seq<EntryView>, id: Seq<char>) -> Option<TabView> {
    match tab_index(entries, id) {
        Some(i) => Some(entries[i].tab),
        None => None,
    }
}

/// No id has two tabs.
pub open spec fn distinct_ids(entries: Seq<EntryView>) -> bool {
    forall|i: int, j: int|
        0 <= i < j < entries.len() ==> (#[trigger] entries[i]).id != (#[trigger] entries[j]).id
}

/// The tabs with another tab for `id`: in place where the id has a tab, as
/// a new last tab where it has none.
pub open spec fn with_tab(entries: Seq<EntryView>, id: Seq<char>, tab: TabView) -> Seq<EntryView> {
    match tab_index(entries, id) {
        Some(i) => entries.update(i, EntryView { id, tab }),
        None => entries.push(EntryView { id, tab }),
    }
}

/// The name under which a file is shown: its file name, or `fallback`
/// where its path ends in none.
pub open spec fn shown_name(path: Seq<char>, fallback: Seq<char>) -> Seq<char> {
    match path_file_name(path) {
        Some(name) => name,
        None => fallback,
    }
}

/// What is told of the tab `tab` under the id `id`.
pub open spec fn info_of(id: Seq<char>, tab: TabView) -> FileInfoView {
    FileInfoView {
        id,
        name: shown_name(tab.path, tab.path),
        path: tab.path,
        total_lines: match tab.file_type {
            FileType::Text => match tab.buffer {
                Some(b) => line_count(b.text()),
                None => 0,
            },
            _ => 0,
        },
        total_chars: match tab.file_type {
            FileType::Text => match tab.buffer {
                Some(b) => b.text().len(),
                None => 0,
            },
            _ => 0,
        },
        last_position: tab.last_position,
        last_scroll_offset: tab.last_scroll_offset,
        is_modified: tab.is_modified,
        file_type: tab.file_type.spec_name(),
        total_chapters: match tab.file_type {
            FileType::Epub => match tab.epub_book {
                Some(b) => b.chapters@.len(),
                None => 0,
            },
            _ => 0,
        },
        total_images: match tab.file_type {
            FileType::Image => match tab.image_source {
                Some(s) => s.count(),
                None => 0,
            },
            _ => 0,
        },
    }
}

/// A tab that was just opened.
pub open spec fn fresh_tab(
    path: Seq<char>,
    file_type: FileType,
    last_position: nat,
    last_scroll_offset: nat,
) -> TabView {
    TabView {
        path,
        buffer: None,
        epub_book: None,
        image_source: None,
        last_position,
        last_scroll_offset,
        is_modified: false,
        file_type,
    }
}

/// The tabs after the text of the tab `id` was put aside: the text of an
/// unmodified text tab goes, everything else stays.
pub open spec fn unloaded(entries: Seq<EntryView>, id: Seq<char>) -> Seq<EntryView> {
    match tab_index(entries, id) {
        Some(i) => if entries[i].tab.file_type == FileType::Text && !entries[i].tab.is_modified {
            entries.update(i, EntryView { id, tab: TabView { buffer: None, ..entries[i].tab } })
        } else {
            entries
        },
        None => entries,
    }
}

/// The tabs after the tab that was active made room for the tab `id`.
pub open spec fn after_leaving(entries: Seq<EntryView>, active: Option<Seq<char>>, id: Seq<char>) -> Seq<
    EntryView,
> {
    match active {
        Some(prev) => if prev != id {
            unloaded(entries, prev)
        } else {
            entries
        },
        None => entries,
    }
}

/// What a search from `from` finds is the first tab of the id.
pub proof fn lemma_tab_from(entries: Seq<EntryView>, id: Seq<char>, from: int)
    requires
        0 <= from,
    ensures
        match tab_from(entries, id, from) {
            Some(p) => from <= p < entries.len() && entries[p].id == id && forall|j: int|
                from <= j < p ==> (#[trigger] entries[j]).id != id,
            None => forall|j: int| from <= j < entries.len() ==> (#[trigger] entries[j]).id != id,
        },
    decreases entries.len() - from,
{
    if from < entries.len() && entries[from].id != id {
        lemma_tab_from(entries, id, from + 1);
    }
}

/// A tab that is put in place, or added for a new id, leaves every id with
/// one tab, and is the tab of its id afterwards.
pub proof fn lemma_with_tab(entries: Seq<EntryView>, id: Seq<char>, tab: TabView)
    requires
        distinct_ids(entries),
    ensures
        distinct_ids(with_tab(entries, id, tab)),
        tab_of(with_tab(entries, id, tab), id) == Some(tab),
        tab_index(with_tab(entries, id, tab), id) == Some(
            match tab_index(entries, id) {
                Some(i) => i,
                None => entries.len() as int,
            },
        ),
{
    let after = with_tab(entries, id, tab);
    lemma_tab_from(entries, id, 0);
    lemma_tab_from(after, id, 0);
    assert forall|i: int, j: int| 0 <= i < j < after.len() implies (#[trigger] after[i]).id != (
    #[trigger] after[j]).id by {
        if j < entries.len() {
            assert(entries[i].id != entries[j].id);
        }
    }
    match tab_index(entries, id) {
        Some(i) => {
            assert(after[i].id == id);
            let q = tab_index(after, id)->0;
            if q != i {
                assert(after[q].id != after[i].id);
            }
        },
        None => {
            assert(after[entries.len() as int].id == id);
            let q = tab_index(after, id)->0;
            if q < entries.len() {
                assert(entries[q].id == id);
            }
        },
    }
}

// ── the manager ─────────────────────────────────────────────────────

/// The open tabs, in the order in which they were opened, and which of
/// them is active.
///
/// The tabs stand in a vector, each id once: the list of tabs and the tab
/// that becomes active when the active one is closed follow that order.
pub struct TabManager {
    tabs: Vec<TabEntry>,
    active_tab: Option<String>,
}

impl TabManager {
    /// The tabs, in the order in which they were opened.
    pub closed spec fn entries(&self) -> Seq<EntryView> {
        Seq::new(self.tabs@.len(), |i: int| self.tabs@[i]@)
    }

    /// The id of the active tab.
    pub closed spec fn active(&self) -> Option<Seq<char>> {
        match self.active_tab {
            Some(id) => Some(id@),
            None => None,
        }
    }

    /// The manager is in order: no id has two tabs.
    pub open spec fn wf(&self) -> bool {
        distinct_ids(self.entries())
    }

    /// A manager without tabs.
    pub fn new() -> (manager: Self)
        ensures
            manager.wf(),
            manager.entries() == Seq::<EntryView>::empty(),
            manager.active() is None,
    {
        let manager = TabManager { tabs: Vec::new(), active_tab: None };
        assert(manager.entries() =~= Seq::<EntryView>::empty());
        manager
    }

    /// The id of the active tab.
    pub fn active_tab(&self) -> (id: Option<String>)
        ensures
            match id {
                Some(text) => self.active() == Some(text@),
                None => self.active() is None,
            },
    {
        match &self.active_tab {
            Some(id) => Some(id.clone()),
            None => None,
        }
    }

    /// Where the tab of an id stands.
    fn find(&self, id: &str) -> (found: Option<usize>)
        ensures
            match found {
                Some(i) => tab_index(self.entries(), id@) == Some(i as int) && i
                    < self.tabs@.len() && self.entries()[i as int].id == id@,
                None => tab_index(self.entries(), id@) is None,
            },
    {
        let wanted = id.to_owned();
        let n = self.tabs.len();
        let mut i: usize = 0;
        while i < n
            invariant
                n == self.tabs@.len(),
                i <= n,
                wanted@ == id@,
                tab_index(self.entries(), id@) == tab_from(self.entries(), id@, i as int),
            decreases n - i,
        {
            if self.tabs[i].id == wanted {
                return Some(i);
            }
            i = i + 1;
        }
        None
    }

    /// Whether a file is open under this id.
    pub fn is_open(&self, id: &str) -> (b: bool)
        ensures
            b == (tab_index(self.entries(), id@) is Some),
    {
        self.find(id).is_some()
    }

    /// Says how the file at `path` is to be opened, given whether anything
    /// is there and whether it is a directory.
    pub fn kind_of(path: &str, exists: bool, is_dir: bool) -> (kind: OpenKind)
        ensures
            kind == open_kind(path@, exists, is_dir),
    {
        if !exists {
            return OpenKind::Missing;
        }
        if is_dir {
            return OpenKind::Directory;
        }
        let ext = match extension_of(path) {
            Some(e) => e.to_lowercase(),
            None => String::new(),
        };
        if str_eq(ext.as_str(), "epub") {
            OpenKind::Epub
        } else if str_eq(ext.as_str(), "pdf") {
            OpenKind::Pdf
        } else if is_image_extension(ext.as_str()) {
            OpenKind::Image
        } else if str_eq(ext.as_str(), "zip") {
            OpenKind::Zip
        } else {
            OpenKind::Text
        }
    }

    /// What is told of the tab at place `i`.
    fn info_at(&self, i: usize) -> (info: FileInfo)
        requires
            i < self.entries().len(),
        ensures
            info@ == info_of(self.entries()[i as int].id, self.entries()[i as int].tab),
    {
        let entry = &self.tabs[i];
        let tab = &entry.tab;
        assert(self.entries()[i as int] == entry@);
        let mut total_lines: usize = 0;
        let mut total_chars: usize = 0;
        let mut total_chapters: usize = 0;
        let mut total_images: usize = 0;
        match tab.file_type {
            FileType::Text => match &tab.buffer {
                Some(buffer) => {
                    total_lines = buffer.get_total_lines();
                    total_chars = buffer.get_total_chars();
                },
                None => {},
            },
            FileType::Epub => match &tab.epub_book {
                Some(book) => {
                    total_chapters = book.total_chapters();
                },
                None => {},
            },
            FileType::Pdf => {},
            FileType::Image => match &tab.image_source {
                Some(source) => {
                    total_images = source.len();
                },
                None => {},
            },
        }
        let name = match file_name_of(tab.path.as_str()) {
            Some(name) => name,
            None => tab.path.clone(),
        };
        FileInfo {
            id: entry.id.clone(),
            name,
            path: tab.path.clone(),
            total_lines,
            total_chars,
            last_position: tab.last_position,
            last_scroll_offset: tab.last_scroll_offset,
            is_modified: tab.is_modified,
            file_type: tab.file_type.name().to_owned(),
            total_chapters,
            total_images,
        }
    }

    /// Opens a tab for `path`, in the place of any tab that was open for
    /// it, and makes it the active tab.
    fn open_tab(&mut self, path: &str, tab: Tab) -> (info: FileInfo)
        requires
            old(self).wf(),
            tab.path@ == path@,
        ensures
            final(self).wf(),
            final(self).entries() == with_tab(old(self).entries(), path@, tab@),
            final(self).active() == Some(path@),
            info@ == info_of(path@, tab@),
    {
        proof {
            lemma_with_tab(self.entries(), path@, tab@);
        }
        let entry = TabEntry { id: path.to_owned(), tab };
        let at = match self.find(path) {
            Some(i) => {
                self.tabs.set(i, entry);
                i
            },
            None => {
                self.tabs.push(entry);
                self.tabs.len() - 1
            },
        };
        assert(self.entries() =~= with_tab(old(self).entries(), path@, tab@));
        self.active_tab = Some(path.to_owned());
        self.info_at(at)
    }

    /// Opens a text that was loaded from `path`.
    pub fn open_text(&mut self, path: &str, buffer: TextBuffer, last_position: usize, last_scroll_offset: usize) -> (info:
        FileInfo)
        requires
            old(self).wf(),
        ensures
            final(self).wf(),
            final(self).active() == Some(path@),
            ({
                let tab = TabView {
                    buffer: Some(buffer),
                    ..fresh_tab(
                        path@,
                        FileType::Text,
                        last_position as nat,
                        last_scroll_offset as nat,
                    )
                };
                &&& final(self).entries() == with_tab(old(self).entries(), path@, tab)
                &&& info@ == info_of(path@, tab)
            }),
    {
        self.open_tab(
            path,
            Tab {
                path: path.to_owned(),
                buffer: Some(buffer),
                epub_book: None,
                image_source: None,
                last_position,
                last_scroll_offset,
                is_modified: false,
                file_type: FileType::Text,
            },
        )
    }

    /// Opens a book that was parsed from `path`.
    pub fn open_epub(&mut self, path: &str, epub_book: EpubBook, last_position: usize, last_scroll_offset: usize) -> (info:
        FileInfo)
        requires
            old(self).wf(),
        ensures
            final(self).wf(),
            final(self).active() == Some(path@),
            ({
                let tab = TabView {
                    epub_book: Some(epub_book),
                    ..fresh_tab(
                        path@,
                        FileType::Epub,
                        last_position as nat,
                        last_scroll_offset as nat,
                    )
                };
                &&& final(self).entries() == with_tab(old(self).entries(), path@, tab)
                &&& info@ == info_of(path@, tab)
            }),
    {
        self.open_tab(
            path,
            Tab {
                path: path.to_owned(),
                buffer: None,
                epub_book: Some(epub_book),
                image_source: None,
                last_position,
                last_scroll_offset,
                is_modified: false,
                file_type: FileType::Epub,
            },
        )
    }

    /// Opens the PDF at `path`.
    pub fn open_pdf(&mut self, path: &str, last_position: usize, last_scroll_offset: usize) -> (info:
        FileInfo)
        requires
            old(self).wf(),
        ensures
            final(self).wf(),
            final(self).active() == Some(path@),
            ({
                let tab = fresh_tab(
                    path@,
                    FileType::Pdf,
                    last_position as nat,
                    last_scroll_offset as nat,
                );
                &&& final(self).entries() == with_tab(old(self).entries(), path@, tab)
                &&& info@ == info_of(path@, tab)
            }),
    {
        self.open_tab(
            path,
            Tab {
                path: path.to_owned(),
                buffer: None,
                epub_book: None,
                image_source: None,
                last_position,
                last_scroll_offset,
                is_modified: false,
                file_type: FileType::Pdf,
            },
        )
    }

    /// Opens the images of the directory `path`. Fails, and changes
    /// nothing, where the directory holds no image.
    pub fn open_image_directory(
        &mut self,
        path: &str,
        image_paths: Vec<String>,
        last_position: usize,
        last_scroll_offset: usize,
    ) -> (res: Result<FileInfo, TabError>)
        requires
            old(self).wf(),
        ensures
            final(self).wf(),
            image_paths@.len() == 0 ==> {
                &&& res matches Err(TabError::NoImages)
                &&& final(self).entries() == old(self).entries()
                &&& final(self).active() == old(self).active()
            },
            image_paths@.len() > 0 ==> {
                &&& res matches Ok(info)
                &&& final(self).active() == Some(path@)
                &&& tab_of(final(self).entries(), path@) matches Some(tab)
                &&& tab.image_source matches Some(ImageSource::Folder { dir_path, image_paths: kept })
                &&& dir_path@ == path@
                &&& kept == image_paths
                &&& final(self).entries() == with_tab(old(self).entries(), path@, tab)
                &&& tab == (TabView {
                    image_source: tab.image_source,
                    ..fresh_tab(
                        path@,
                        FileType::Image,
                        last_position as nat,
                        last_scroll_offset as nat,
                    )
                })
                &&& info@ == info_of(path@, tab)
            },
    {
        if image_paths.len() == 0 {
            return Err(TabError::NoImages);
        }
        let tab = Tab {
            path: path.to_owned(),
            buffer: None,
            epub_book: None,
            image_source: Some(ImageSource::Folder { dir_path: path.to_owned(), image_paths }),
            last_position,
            last_scroll_offset,
            is_modified: false,
            file_type: FileType::Image,
        };
        proof {
            lemma_with_tab(self.entries(), path@, tab@);
        }
        Ok(self.open_tab(path, tab))
    }

    /// Opens the images that the file at `path` stands for: the image
    /// entries of an archive, or the images of the folder of an image. For
    /// a folder the tab starts at the image itself, at `current_index`,
    /// unless a position other than 0 is handed in.
    pub fn open_image(
        &mut self,
        path: &str,
        image_source: ImageSource,
        current_index: usize,
        last_position: usize,
        last_scroll_offset: usize,
    ) -> (info: FileInfo)
        requires
            old(self).wf(),
        ensures
            final(self).wf(),
            final(self).active() == Some(path@),
            ({
                let position = if image_source is Folder && last_position == 0 {
                    current_index
                } else {
                    last_position
                };
                let tab = TabView {
                    image_source: Some(image_source),
                    ..fresh_tab(
                        path@,
                        FileType::Image,
                        position as nat,
                        last_scroll_offset as nat,
                    )
                };
                &&& final(self).entries() == with_tab(old(self).entries(), path@, tab)
                &&& info@ == info_of(path@, tab)
            }),
    {
        let is_folder = match &image_source {
            ImageSource::Folder { .. } => true,
            ImageSource::Zip { .. } => false,
        };
        let position = if is_folder && last_position == 0 {
            current_index
        } else {
            last_position
        };
        self.open_tab(
            path,
            Tab {
                path: path.to_owned(),
                buffer: None,
                epub_book: None,
                image_source: Some(image_source),
                last_position: position,
                last_scroll_offset,
                is_modified: false,
                file_type: FileType::Image,
            },
        )
    }

    /// Closes a tab and says where reading stopped in it: the position and
    /// the scroll offset. Where the tab was active, the first of the tabs
    /// that are left becomes active.
    pub fn close_tab(&mut self, id: &str) -> (res: Result<(usize, usize), TabError>)
        requires
            old(self).wf(),
        ensures
            final(self).wf(),
            match tab_index(old(self).entries(), id@) {
                None => {
                    &&& res matches Err(TabError::TabNotFound)
                    &&& final(self).entries() == old(self).entries()
                    &&& final(self).active() == old(self).active()
                },
                Some(i) => {
                    &&& res matches Ok(place)
                    &&& place.0 == old(self).entries()[i].tab.last_position
                    &&& place.1 == old(self).entries()[i].tab.last_scroll_offset
                    &&& final(self).entries() == old(self).entries().remove(i)
                    &&& final(self).active() == if old(self).active() == Some(id@) {
                        if final(self).entries().len() > 0 {
                            Some(final(self).entries()[0].id)
                        } else {
                            None
                        }
                    } else {
                        old(self).active()
                    }
                },
            },
    {
        match self.find(id) {
            None => Err(TabError::TabNotFound),
            Some(i) => {
                let ghost before = self.entries();
                let entry = self.tabs.remove(i);
                proof {
                    assert(entry@ == before[i as int]);
                    assert(self.entries() =~= before.remove(i as int));
                    assert forall|a: int, b: int|
                        0 <= a < b < self.entries().len() implies (#[trigger] self.entries()[a]).id
                        != (#[trigger] self.entries()[b]).id by {
                        let a0 = if a < i {
                            a
                        } else {
                            a + 1
                        };
                        let b0 = if b < i {
                            b
                        } else {
                            b + 1
                        };
                        assert(self.entries()[a] == before[a0]);
                        assert(self.entries()[b] == before[b0]);
                        assert(before[a0].id != before[b0].id);
                    }
                }
                let was_active = match &self.active_tab {
                    Some(active) => str_eq(active.as_str(), id),
                    None => false,
                };
                if was_active {
                    if self.tabs.len() > 0 {
                        assert(self.entries()[0] == self.tabs@[0]@);
                        self.active_tab = Some(self.tabs[0].id.clone());
                    } else {
                        self.active_tab = None;
                    }
                }
                Ok((entry.tab.last_position, entry.tab.last_scroll_offset))
            },
        }
    }

    /// Puts the text of the tab `id` aside, if the tab shows a text that
    /// was not modified.
    fn unload(&mut self, id: &str)
        requires
            old(self).wf(),
        ensures
            final(self).wf(),
            final(self).entries() == unloaded(old(self).entries(), id@),
            final(self).active() == old(self).active(),
    {
        match self.find(id) {
            None => {},
            Some(i) => {
                let ghost before = self.entries();
                assert(before[i as int] == self.tabs@[i as int]@);
                let is_text = match self.tabs[i].tab.file_type {
                    FileType::Text => true,
                    _ => false,
                };
                if is_text && !self.tabs[i].tab.is_modified {
                    self.tabs[i].tab.buffer = None;
                    proof {
                        assert(self.tabs@[i as int]@.tab == (TabView {
                            buffer: None,
                            ..before[i as int].tab
                        }));
                        assert(self.entries() =~= unloaded(before, id@));
                        assert forall|a: int, b: int|
                            0 <= a < b < self.entries().len() implies (
                        #[trigger] self.entries()[a]).id != (#[trigger] self.entries()[b]).id by {
                            assert(before[a].id != before[b].id);
                        }
                    }
                }
            },
        }
    }

    /// Makes the tab `id` the active tab and says what it shows. The tab
    /// that was active before puts its text aside if it was not modified.
    /// Where the text of the tab `id` was put aside, the step asks for it
    /// and the tab is not active yet.
    pub fn switch_tab(&mut self, id: &str) -> (res: Result<SwitchStep, TabError>)
        requires
            old(self).wf(),
        ensures
            final(self).wf(),
            final(self).entries() == after_leaving(old(self).entries(), old(self).active(), id@),
            match tab_of(final(self).entries(), id@) {
                None => {
                    &&& res matches Err(TabError::TabNotFound)
                    &&& final(self).active() == old(self).active()
                },
                Some(tab) => if tab.file_type == FileType::Text && tab.buffer is None {
                    &&& res matches Ok(SwitchStep::NeedBuffer(path))
                    &&& path@ == tab.path
                    &&& final(self).active() == old(self).active()
                } else {
                    &&& res matches Ok(SwitchStep::Shown(info))
                    &&& info@ == info_of(id@, tab)
                    &&& final(self).active() == Some(id@)
                },
            },
    {
        let leave = match &self.active_tab {
            Some(prev) => if str_eq(prev.as_str(), id) {
                None
            } else {
                Some(prev.clone())
            },
            None => None,
        };
        match leave {
            Some(prev) => {
                self.unload(prev.as_str());
            },
            None => {},
        }
        match self.find(id) {
            None => Err(TabError::TabNotFound),
            Some(i) => {
                assert(self.entries()[i as int] == self.tabs@[i as int]@);
                let is_text = match self.tabs[i].tab.file_type {
                    FileType::Text => true,
                    _ => false,
                };
                if is_text && self.tabs[i].tab.buffer.is_none() {
                    return Ok(SwitchStep::NeedBuffer(self.tabs[i].tab.path.clone()));
                }
                let info = self.info_at(i);
                self.active_tab = Some(id.to_owned());
                Ok(SwitchStep::Shown(info))
            },
        }
    }

    /// Gives the tab `id` its text back. Does nothing where no tab has the
    /// id.
    pub fn restore_buffer(&mut self, id: &str, buffer: TextBuffer)
        requires
            old(self).wf(),
        ensures
            final(self).wf(),
            final(self).active() == old(self).active(),
            final(self).entries() == match tab_index(old(self).entries(), id@) {
                Some(i) => old(self).entries().update(
                    i,
                    EntryView {
                        id: id@,
                        tab: TabView { buffer: Some(buffer), ..old(self).entries()[i].tab },
                    },
                ),
                None => old(self).entries(),
            },
    {
        match self.find(id) {
            None => {},
            Some(i) => {
                let ghost before = self.entries();
                assert(before[i as int] == self.tabs@[i as int]@);
                self.tabs[i].tab.buffer = Some(buffer);
                proof {
                    assert(self.tabs@[i as int]@.tab == (TabView {
                        buffer: Some(buffer),
                        ..before[i as int].tab
                    }));
                    assert(self.entries() =~= before.update(
                        i as int,
                        EntryView {
                            id: id@,
                            tab: TabView { buffer: Some(buffer), ..before[i as int].tab },
                        },
                    ));
                    assert forall|a: int, b: int|
                        0 <= a < b < self.entries().len() implies (#[trigger] self.entries()[a]).id
                        != (#[trigger] self.entries()[b]).id by {
                        assert(before[a].id != before[b].id);
                    }
                }
            },
        }
    }

    /// Takes the text of the tab `id` out of the manager, to be edited and
    /// given back with [`TabManager::restore_buffer`].
    pub fn take_buffer(&mut self, id: &str) -> (res: Result<TextBuffer, TabError>)
        requires
            old(self).wf(),
        ensures
            final(self).wf(),
            final(self).active() == old(self).active(),
            match tab_index(old(self).entries(), id@) {
                None => res matches Err(TabError::TabNotFound) && final(self).entries() == old(
                    self,
                ).entries(),
                Some(i) => match old(self).entries()[i].tab.buffer {
                    None => res matches Err(TabError::BufferNotLoaded) && final(self).entries()
                        == old(self).entries(),
                    Some(buffer) => {
                        &&& res matches Ok(taken)
                        &&& taken == buffer
                        &&& final(self).entries() == old(self).entries().update(
                            i,
                            EntryView {
                                id: id@,
                                tab: TabView { buffer: None, ..old(self).entries()[i].tab },
                            },
                        )
                    },
                },
            },
    {
        match self.find(id) {
            None => Err(TabError::TabNotFound),
            Some(i) => {
                let ghost before = self.entries();
                assert(before[i as int] == self.tabs@[i as int]@);
                match self.tabs[i].tab.buffer.take() {
                    None => {
                        assert(self.entries() =~= before);
                        Err(TabError::BufferNotLoaded)
                    },
                    Some(buffer) => {
                        proof {
                            assert(self.tabs@[i as int]@.tab == (TabView {
                                buffer: None,
                                ..before[i as int].tab
                            }));
                            assert(self.entries() =~= before.update(
                                i as int,
                                EntryView {
                                    id: id@,
                                    tab: TabView { buffer: None, ..before[i as int].tab },
                                },
                            ));
                            assert forall|a: int, b: int|
                                0 <= a < b < self.entries().len() implies (
                            #[trigger] self.entries()[a]).id != (
                            #[trigger] self.entries()[b]).id by {
                                assert(before[a].id != before[b].id);
                            }
                        }
                        Ok(buffer)
                    },
                }
            },
        }
    }

    /// What the tab bar shows: one entry for each tab, in the order in
    /// which the tabs were opened.
    pub fn get_open_tabs(&self) -> (tabs: Vec<TabInfo>)
        ensures
            tabs@.len() == self.entries().len(),
            forall|i: int|
                0 <= i < tabs@.len() ==> (#[trigger] tabs@[i])@ == (TabInfoView {
                    id: self.entries()[i].id,
                    name: shown_name(self.entries()[i].tab.path, self.entries()[i].id),
                    path: self.entries()[i].tab.path,
                    is_active: self.active() == Some(self.entries()[i].id),
                    is_modified: self.entries()[i].tab.is_modified,
                    file_type: self.entries()[i].tab.file_type.spec_name(),
                }),
    {
        let n = self.tabs.len();
        let mut tabs: Vec<TabInfo> = Vec::with_capacity(n);
        let mut i: usize = 0;
        while i < n
            invariant
                n == self.tabs@.len(),
                n == self.entries().len(),
                i <= n,
                tabs@.len() == i,
                forall|k: int|
                    0 <= k < i ==> (#[trigger] tabs@[k])@ == (TabInfoView {
                        id: self.entries()[k].id,
                        name: shown_name(self.entries()[k].tab.path, self.entries()[k].id),
                        path: self.entries()[k].tab.path,
                        is_active: self.active() == Some(self.entries()[k].id),
                        is_modified: self.entries()[k].tab.is_modified,
                        file_type: self.entries()[k].tab.file_type.spec_name(),
                    }),
            decreases n - i,
        {
            let entry = &self.tabs[i];
            assert(self.entries()[i as int] == entry@);
            let name = match file_name_of(entry.tab.path.as_str()) {
                Some(name) => name,
                None => entry.id.clone(),
            };
            let is_active = match &self.active_tab {
                Some(active) => str_eq(active.as_str(), entry.id.as_str()),
                None => false,
            };
            tabs.push(
                TabInfo {
                    id: entry.id.clone(),
                    name,
                    path: entry.tab.path.clone(),
                    is_active,
                    is_modified: entry.tab.is_modified,
                    file_type: entry.tab.file_type.name().to_owned(),
                },
            );
            i = i + 1;
        }
        tabs
    }

    /// The text of the tab `id`.
    pub fn get_buffer(&self, id: &str) -> (res: Result<&TextBuffer, TabError>)
        ensures
            match tab_of(self.entries(), id@) {
                None => res matches Err(TabError::TabNotFound),
                Some(tab) => match tab.buffer {
                    None => res matches Err(TabError::BufferNotLoaded),
                    Some(buffer) => res matches Ok(b) && *b == buffer,
                },
            },
    {
        match self.find(id) {
            None => Err(TabError::TabNotFound),
            Some(i) => {
                assert(self.entries()[i as int] == self.tabs@[i as int]@);
                match &self.tabs[i].tab.buffer {
                    None => Err(TabError::BufferNotLoaded),
                    Some(buffer) => Ok(buffer),
                }
            },
        }
    }

    /// The lines from `start_line` up to, not including, `end_line` of the
    /// text of the tab `id`, as far as the text has them.
    pub fn get_text_chunk(&self, id: &str, start_line: usize, end_line: usize) -> (res: Result<
        TextChunk,
        TabError,
    >)
        ensures
            match tab_of(self.entries(), id@) {
                None => res matches Err(TabError::TabNotFound),
                Some(tab) => match tab.buffer {
                    None => res matches Err(TabError::BufferNotLoaded),
                    Some(buffer) => {
                        let total = line_count(buffer.text()) as int;
                        let end = clamped(end_line as int, total);
                        &&& res matches Ok(chunk)
                        &&& chunk.start_line == start_line
                        &&& chunk.end_line == end
                        &&& chunk.total_lines == total
                        &&& chunk.lines@.len() == if start_line < end {
                            end - start_line
                        } else {
                            0
                        }
                        &&& forall|k: int|
                            0 <= k < chunk.lines@.len() ==> (#[trigger] chunk.lines@[k])@
                                == line_text(buffer.text(), start_line + k)
                    },
                },
            },
    {
        match self.get_buffer(id) {
            Err(e) => Err(e),
            Ok(buffer) => {
                let total_lines = buffer.get_total_lines();
                let actual_end = if end_line < total_lines {
                    end_line
                } else {
                    total_lines
                };
                let lines = buffer.get_chunk(start_line, actual_end);
                Ok(TextChunk { lines, start_line, end_line: actual_end, total_lines })
            },
        }
    }

    /// The number of lines of the text of the tab `id`.
    pub fn get_total_lines(&self, id: &str) -> (res: Result<usize, TabError>)
        ensures
            match tab_of(self.entries(), id@) {
                None => res matches Err(TabError::TabNotFound),
                Some(tab) => match tab.buffer {
                    None => res matches Err(TabError::BufferNotLoaded),
                    Some(buffer) => res matches Ok(n) && n == line_count(buffer.text()),
                },
            },
    {
        match self.get_buffer(id) {
            Err(e) => Err(e),
            Ok(buffer) => Ok(buffer.get_total_lines()),
        }
    }

    /// Marks the tab `id` as modified or not. Does nothing where no tab
    /// has the id.
    pub fn set_modified(&mut self, id: &str, modified: bool)
        requires
            old(self).wf(),
        ensures
            final(self).wf(),
            final(self).active() == old(self).active(),
            final(self).entries() == match tab_index(old(self).entries(), id@) {
                Some(i) => old(self).entries().update(
                    i,
                    EntryView {
                        id: id@,
                        tab: TabView { is_modified: modified, ..old(self).entries()[i].tab },
                    },
                ),
                None => old(self).entries(),
            },
    {
        match self.find(id) {
            None => {},
            Some(i) => {
                let ghost before = self.entries();
                assert(before[i as int] == self.tabs@[i as int]@);
                self.tabs[i].tab.is_modified = modified;
                proof {
                    assert(self.tabs@[i as int]@.tab == (TabView {
                        is_modified: modified,
                        ..before[i as int].tab
                    }));
                    assert(self.entries() =~= before.update(
                        i as int,
                        EntryView {
                            id: id@,
                            tab: TabView { is_modified: modified, ..before[i as int].tab },
                        },
                    ));
                    assert forall|a: int, b: int|
                        0 <= a < b < self.entries().len() implies (#[trigger] self.entries()[a]).id
                        != (#[trigger] self.entries()[b]).id by {
                        assert(before[a].id != before[b].id);
                    }
                }
            },
        }
    }

    /// Notes where reading stopped in the tab `id`. Does nothing where no
    /// tab has the id.
    pub fn set_last_position(&mut self, id: &str, position: usize, scroll_offset: usize)
        requires
            old(self).wf(),
        ensures
            final(self).wf(),
            final(self).active() == old(self).active(),
            final(self).entries() == match tab_index(old(self).entries(), id@) {
                Some(i) => old(self).entries().update(
                    i,
                    EntryView {
                        id: id@,
                        tab: TabView {
                            last_position: position as nat,
                            last_scroll_offset: scroll_offset as nat,
                            ..old(self).entries()[i].tab
                        },
                    },
                ),
                None => old(self).entries(),
            },
    {
        match self.find(id) {
            None => {},
            Some(i) => {
                let ghost before = self.entries();
                assert(before[i as int] == self.tabs@[i as int]@);
                self.tabs[i].tab.last_position = position;
                self.tabs[i].tab.last_scroll_offset = scroll_offset;
                proof {
                    assert(self.tabs@[i as int]@.tab == (TabView {
                        last_position: position as nat,
                        last_scroll_offset: scroll_offset as nat,
                        ..before[i as int].tab
                    }));
                    assert(self.entries() =~= before.update(
                        i as int,
                        EntryView {
                            id: id@,
                            tab: TabView {
                                last_position: position as nat,
                                last_scroll_offset: scroll_offset as nat,
                                ..before[i as int].tab
                            },
                        },
                    ));
                    assert forall|a: int, b: int|
                        0 <= a < b < self.entries().len() implies (#[trigger] self.entries()[a]).id
                        != (#[trigger] self.entries()[b]).id by {
                        assert(before[a].id != before[b].id);
                    }
                }
            },
        }
    }

    /// The path of the file of the tab `id`.
    pub fn get_file_path(&self, id: &str) -> (res: Result<String, TabError>)
        ensures
            match tab_of(self.entries(), id@) {
                None => res matches Err(TabError::TabNotFound),
                Some(tab) => res matches Ok(path) && path@ == tab.path,
            },
    {
        match self.find(id) {
            None => Err(TabError::TabNotFound),
            Some(i) => {
                assert(self.entries()[i as int] == self.tabs@[i as int]@);
                Ok(self.tabs[i].tab.path.clone())
            },
        }
    }

    /// The book of the tab `id`.
    fn book_of(&self, id: &str) -> (res: Result<&EpubBook, TabError>)
        ensures
            match tab_of(self.entries(), id@) {
                None => res matches Err(TabError::TabNotFound),
                Some(tab) => match tab.epub_book {
                    None => res matches Err(TabError::NotAnEpub),
                    Some(book) => res matches Ok(b) && *b == book,
                },
            },
    {
        match self.find(id) {
            None => Err(TabError::TabNotFound),
            Some(i) => {
                assert(self.entries()[i as int] == self.tabs@[i as int]@);
                match &self.tabs[i].tab.epub_book {
                    None => Err(TabError::NotAnEpub),
                    Some(book) => Ok(book),
                }
            },
        }
    }

    /// The markup of chapter `chapter_index` of the book of the tab `id`.
    pub fn get_epub_chapter_html(&self, id: &str, chapter_index: usize) -> (res: Result<
        String,
        TabError,
    >)
        ensures
            match tab_of(self.entries(), id@) {
                None => res matches Err(TabError::TabNotFound),
                Some(tab) => match tab.epub_book {
                    None => res matches Err(TabError::NotAnEpub),
                    Some(book) => if chapter_index < book.chapters@.len() {
                        res matches Ok(html) && html@ == book.chapters@[chapter_index as int].html@
                    } else {
                        res matches Err(TabError::ChapterNotFound)
                    },
                },
            },
    {
        match self.book_of(id) {
            Err(e) => Err(e),
            Ok(book) => match book.get_chapter_html(chapter_index) {
                Some(html) => Ok(html),
                None => Err(TabError::ChapterNotFound),
            },
        }
    }

    /// The font rules of the book of the tab `id`.
    pub fn get_epub_font_styles(&self, id: &str) -> (res: Result<String, TabError>)
        ensures
            match tab_of(self.entries(), id@) {
                None => res matches Err(TabError::TabNotFound),
                Some(tab) => match tab.epub_book {
                    None => res matches Err(TabError::NotAnEpub),
                    Some(book) => res matches Ok(styles) && styles@ == book.font_styles@,
                },
            },
    {
        match self.book_of(id) {
            Err(e) => Err(e),
            Ok(book) => Ok(book.font_styles.clone()),
        }
    }

    /// The chapters of the book of the tab `id`.
    pub fn get_epub_chapter_infos(&self, id: &str) -> (res: Result<Vec<ChapterInfo>, TabError>)
        ensures
            match tab_of(self.entries(), id@) {
                None => res matches Err(TabError::TabNotFound),
                Some(tab) => match tab.epub_book {
                    None => res matches Err(TabError::NotAnEpub),
                    Some(book) => {
                        &&& res matches Ok(infos)
                        &&& infos@.len() == book.chapters@.len()
                        &&& forall|i: int|
                            0 <= i < infos@.len() ==> (#[trigger] infos@[i]).index == i
                                && infos@[i].title@ == book.chapters@[i].title@
                    },
                },
            },
    {
        match self.book_of(id) {
            Err(e) => Err(e),
            Ok(book) => Ok(book.get_chapter_infos()),
        }
    }

    /// The images of the tab `id`.
    fn images_of(&self, id: &str) -> (res: Result<&ImageSource, TabError>)
        ensures
            match tab_of(self.entries(), id@) {
                None => res matches Err(TabError::TabNotFound),
                Some(tab) => match tab.image_source {
                    None => res matches Err(TabError::NotAnImage),
                    Some(source) => res matches Ok(s) && *s == source,
                },
            },
    {
        match self.find(id) {
            None => Err(TabError::TabNotFound),
            Some(i) => {
                assert(self.entries()[i as int] == self.tabs@[i as int]@);
                match &self.tabs[i].tab.image_source {
                    None => Err(TabError::NotAnImage),
                    Some(source) => Ok(source),
                }
            },
        }
    }

    /// The names of the images of the tab `id`, in viewing order.
    pub fn get_image_list(&self, id: &str) -> (res: Result<Vec<String>, TabError>)
        ensures
            match tab_of(self.entries(), id@) {
                None => res matches Err(TabError::TabNotFound),
                Some(tab) => match tab.image_source {
                    None => res matches Err(TabError::NotAnImage),
                    Some(source) => {
                        &&& res matches Ok(names)
                        &&& names@.len() == source.count()
                        &&& forall|i: int|
                            0 <= i < names@.len() ==> (#[trigger] names@[i])@ == source.listed_name(
                                i,
                            )
                    },
                },
            },
    {
        match self.images_of(id) {
            Err(e) => Err(e),
            Ok(source) => Ok(source.names()),
        }
    }

    /// The number of images of the tab `id`, 0 where it shows none.
    pub fn get_image_count(&self, id: &str) -> (n: usize)
        ensures
            n == match tab_of(self.entries(), id@) {
                Some(tab) => match tab.image_source {
                    Some(source) => source.count(),
                    None => 0,
                },
                None => 0,
            },
    {
        match self.images_of(id) {
            Err(_) => 0,
            Ok(source) => source.len(),
        }
    }

    /// Where the bytes of image `index` of the tab `id` are to be read;
    /// `None` where the tab has no such image.
    pub fn get_image_location(&self, id: &str, index: usize) -> (res: Result<
        Option<ImageLocation>,
        TabError,
    >)
        ensures
            match tab_of(self.entries(), id@) {
                None => res matches Err(TabError::TabNotFound),
                Some(tab) => match tab.image_source {
                    None => res matches Err(TabError::NotAnImage),
                    Some(source) => res matches Ok(location) && source.is_location(
                        index as nat,
                        location,
                    ),
                },
            },
    {
        match self.images_of(id) {
            Err(e) => Err(e),
            Ok(source) => Ok(source.locate(index)),
        }
    }
}

} // verus!
