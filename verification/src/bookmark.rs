//! Bookmarks and reading positions by file.
//!
//! The store keeps one record for each tracked file, in the order in which
//! the files were first tracked. It keeps no clock and writes no file: the
//! time of an event is handed in, and whoever owns the store saves it.

use vstd::prelude::*;

use crate::image_reader::{file_name_or_empty, name_of};
use crate::outside::lowercased;
use crate::sorting::{
    compare_text, lemma_text_order_chains, lemma_text_order_flips, reversed, stable_sort,
    stable_sorted, text_order, views, Order, Ranked,
};
use crate::text::{chars_contain, chars_of, contains};

verus! {

// ── what the store holds ────────────────────────────────────────────

/// A marked place in a file, as a value.
pub struct BookmarkView {
    pub position: nat,
    pub line: nat,
    pub memo: Seq<char>,
    pub created: Seq<char>,
}

/// A marked place in a file.
#[derive(Debug)]
pub struct Bookmark {
    pub position: usize,
    pub line: usize,
    pub memo: String,
    pub created: String,
}

impl View for Bookmark {
    type V = BookmarkView;

    open spec fn view(&self) -> BookmarkView {
        BookmarkView {
            position: self.position as nat,
            line: self.line as nat,
            memo: self.memo@,
            created: self.created@,
        }
    }
}

impl Clone for Bookmark {
    fn clone(&self) -> (copy: Self)
        ensures
            copy@ == self@,
    {
        Bookmark {
            position: self.position,
            line: self.line,
            memo: self.memo.clone(),
            created: self.created.clone(),
        }
    }
}

/// Copies a list of bookmarks.
pub fn clone_bookmarks(list: &Vec<Bookmark>) -> (copy: Vec<Bookmark>)
    ensures
        views(copy@) == views(list@),
{
    let n = list.len();
    let mut copy: Vec<Bookmark> = Vec::with_capacity(n);
    let mut i: usize = 0;
    while i < n
        invariant
            n == list@.len(),
            i <= n,
            copy@.len() == i,
            forall|j: int| 0 <= j < i ==> (#[trigger] copy@[j])@ == list@[j]@,
        decreases n - i,
    {
        copy.push(list[i].clone());
        i = i + 1;
    }
    assert(views(copy@) =~= views(list@));
    copy
}

/// What is kept of one file, as a value.
pub struct FileMarks {
    pub last_position: nat,
    pub last_opened: Seq<char>,
    pub bookmarks: Seq<BookmarkView>,
    pub favorite: bool,
    pub last_scroll_offset: nat,
    pub display_order: Option<nat>,
}

/// What is kept of one file: where reading stopped, when it was last
/// opened, its bookmarks, and how it is listed.
#[derive(Debug)]
pub struct FileBookmarks {
    pub last_position: usize,
    pub last_opened: String,
    pub bookmarks: Vec<Bookmark>,
    pub favorite: bool,
    pub last_scroll_offset: usize,
    pub display_order: Option<usize>,
}

/// The place in a list that an ordinal stands for.
pub open spec fn ordinal(order: Option<usize>) -> Option<nat> {
    match order {
        Some(n) => Some(n as nat),
        None => None,
    }
}

impl View for FileBookmarks {
    type V = FileMarks;

    open spec fn view(&self) -> FileMarks {
        FileMarks {
            last_position: self.last_position as nat,
            last_opened: self.last_opened@,
            bookmarks: views(self.bookmarks@),
            favorite: self.favorite,
            last_scroll_offset: self.last_scroll_offset as nat,
            display_order: ordinal(self.display_order),
        }
    }
}

/// What is kept of a file that was just opened for the first time.
pub open spec fn fresh_marks(now: Seq<char>) -> FileMarks {
    FileMarks {
        last_position: 0,
        last_opened: now,
        bookmarks: Seq::empty(),
        favorite: false,
        last_scroll_offset: 0,
        display_order: None,
    }
}

impl FileBookmarks {
    /// What is kept of a file that is opened for the first time at `now`.
    pub fn opened_at(now: &str) -> (fresh: Self)
        ensures
            fresh@ == fresh_marks(now@),
    {
        let fresh = FileBookmarks {
            last_position: 0,
            last_opened: now.to_owned(),
            bookmarks: Vec::new(),
            favorite: false,
            last_scroll_offset: 0,
            display_order: None,
        };
        assert(views(fresh.bookmarks@) =~= Seq::<BookmarkView>::empty());
        fresh
    }
}

/// A tracked file and what is kept of it, as a value.
pub struct RecordView {
    pub path: Seq<char>,
    pub marks: FileMarks,
}

/// A tracked file and what is kept of it.
#[derive(Debug)]
pub struct FileRecord {
    pub path: String,
    pub marks: FileBookmarks,
}

impl View for FileRecord {
    type V = RecordView;

    open spec fn view(&self) -> RecordView {
        RecordView { path: self.path@, marks: self.marks@ }
    }
}

/// A bookmark that a search found, as a value.
pub struct SearchResultView {
    pub file_path: Seq<char>,
    pub file_name: Seq<char>,
    pub bookmark: BookmarkView,
}

/// A bookmark that a search found, with the file it belongs to.
#[derive(Debug)]
pub struct BookmarkSearchResult {
    pub file_path: String,
    pub file_name: String,
    pub bookmark: Bookmark,
}

impl View for BookmarkSearchResult {
    type V = SearchResultView;

    open spec fn view(&self) -> SearchResultView {
        SearchResultView {
            file_path: self.file_path@,
            file_name: self.file_name@,
            bookmark: self.bookmark@,
        }
    }
}

/// One line of the list of tracked files, as a value.
pub struct ListEntryView {
    pub file_path: Seq<char>,
    pub file_name: Seq<char>,
    pub last_position: nat,
    pub last_opened: Seq<char>,
    pub bookmark_count: nat,
    pub favorite: bool,
    pub display_order: Option<nat>,
}

/// One line of the list of tracked files.
#[derive(Debug)]
pub struct FileListEntry {
    pub file_path: String,
    pub file_name: String,
    pub last_position: usize,
    pub last_opened: String,
    pub bookmark_count: usize,
    pub favorite: bool,
    pub display_order: Option<usize>,
}

impl View for FileListEntry {
    type V = ListEntryView;

    open spec fn view(&self) -> ListEntryView {
        ListEntryView {
            file_path: self.file_path@,
            file_name: self.file_name@,
            last_position: self.last_position as nat,
            last_opened: self.last_opened@,
            bookmark_count: self.bookmark_count as nat,
            favorite: self.favorite,
            display_order: ordinal(self.display_order),
        }
    }
}

impl Ranked for FileListEntry {
    /// Files with a place in the list come first, by their places; the
    /// others follow, the one opened last first.
    open spec fn order(a: ListEntryView, b: ListEntryView) -> Order {
        match (a.display_order, b.display_order) {
            (Some(x), Some(y)) => if x < y {
                Order::Less
            } else if x > y {
                Order::Greater
            } else {
                Order::Equal
            },
            (Some(_), None) => Order::Less,
            (None, Some(_)) => Order::Greater,
            (None, None) => reversed(text_order(a.last_opened, b.last_opened)),
        }
    }

    proof fn lemma_order_flips(a: ListEntryView, b: ListEntryView) {
        lemma_text_order_flips(a.last_opened, b.last_opened);
    }

    proof fn lemma_order_chains(a: ListEntryView, b: ListEntryView, c: ListEntryView) {
        lemma_text_order_flips(a.last_opened, b.last_opened);
        lemma_text_order_flips(b.last_opened, c.last_opened);
        lemma_text_order_flips(a.last_opened, c.last_opened);
        if a.display_order is None && b.display_order is None && c.display_order is None {
            lemma_text_order_chains(c.last_opened, b.last_opened, a.last_opened);
        }
    }

    fn compare(&self, other: &Self) -> (o: Order) {
        match self.display_order {
            Some(x) => match other.display_order {
                Some(y) => if x < y {
                    Order::Less
                } else if x > y {
                    Order::Greater
                } else {
                    Order::Equal
                },
                None => Order::Less,
            },
            None => match other.display_order {
                Some(_) => Order::Greater,
                None => {
                    let mine = chars_of(self.last_opened.as_str());
                    let theirs = chars_of(other.last_opened.as_str());
                    match compare_text(mine.as_slice(), theirs.as_slice()) {
                        Order::Less => Order::Greater,
                        Order::Equal => Order::Equal,
                        Order::Greater => Order::Less,
                    }
                },
            },
        }
    }
}

/// Why a bookmark could not be changed.
#[derive(Debug, Clone, Copy, PartialEq, Eq, Structural)]
pub enum BookmarkError {
    /// The file is not tracked.
    FileNotFound,
    /// The file has no bookmark with this ordinal.
    IndexOutOfRange,
}

// ── the model ───────────────────────────────────────────────────────

/// The first record from `from` on that belongs to `path`.
pub open spec fn record_from(records: Seq<RecordView>, path: Seq<char>, from: int) -> Option<int>
    decreases records.len() - from,
{
    if from < 0 || from >= records.len() {
        None
    } else if records[from].path == path {
        Some(from)
    } else {
        record_from(records, path, from + 1)
    }
}

/// Where the record of `path` stands, if the file is tracked.
pub open spec fn record_of(records: Seq<RecordView>, path: Seq<char>) -> Option<int> {
    record_from(records, path, 0)
}

/// What is kept of `path`, if the file is tracked.
pub open spec fn marks_of(records: Seq<RecordView>, path: Seq<char>) -> Option<FileMarks> {
    match record_of(records, path) {
        Some(i) => Some(records[i].marks),
        None => None,
    }
}

/// No file has two records.
pub open spec fn distinct_paths(records: Seq<RecordView>) -> bool {
    forall|i: int, j: int|
        0 <= i < j < records.len() ==> (#[trigger] records[i]).path != (#[trigger] records[j]).path
}

/// The records with other marks for `path`: in place where the file is
/// tracked, as a new last record where it is not.
pub open spec fn with_marks(records: Seq<RecordView>, path: Seq<char>, marks: FileMarks) -> Seq<
    RecordView,
> {
    match record_of(records, path) {
        Some(i) => records.update(i, RecordView { path, marks }),
        None => records.push(RecordView { path, marks }),
    }
}

/// What is kept of `path`, or what is kept of a file first opened at
/// `now`.
pub open spec fn marks_or_fresh(records: Seq<RecordView>, path: Seq<char>, now: Seq<char>) -> FileMarks {
    match marks_of(records, path) {
        Some(marks) => marks,
        None => fresh_marks(now),
    }
}

/// The records without the one of `path`.
pub open spec fn without_file(records: Seq<RecordView>, path: Seq<char>) -> Seq<RecordView> {
    match record_of(records, path) {
        Some(i) => records.remove(i),
        None => records,
    }
}

/// The records after the first `n` of `paths` were given their places:
/// each tracked file among them gets its ordinal in `paths`, a later
/// mention overriding an earlier one.
pub open spec fn reordered(records: Seq<RecordView>, paths: Seq<Seq<char>>, n: nat) -> Seq<
    RecordView,
>
    decreases n,
{
    if n == 0 {
        records
    } else {
        let before = reordered(records, paths, (n - 1) as nat);
        match marks_of(before, paths[n - 1]) {
            Some(marks) => with_marks(
                before,
                paths[n - 1],
                FileMarks { display_order: Some((n - 1) as nat), ..marks },
            ),
            None => before,
        }
    }
}

/// Whether a bookmark of a file is found by a query: the query occurs, in
/// whatever case, in the name of the file or in the memo.
pub open spec fn is_found(file_name: Seq<char>, memo: Seq<char>, query: Seq<char>) -> bool {
    contains(lowercased(file_name), lowercased(query)) || contains(
        lowercased(memo),
        lowercased(query),
    )
}

/// What a query finds among the first `n` bookmarks of a record.
pub open spec fn found_in(record: RecordView, query: Seq<char>, n: nat) -> Seq<SearchResultView>
    decreases n,
{
    if n == 0 {
        Seq::empty()
    } else {
        let before = found_in(record, query, (n - 1) as nat);
        let bookmark = record.marks.bookmarks[n - 1];
        if is_found(name_of(record.path), bookmark.memo, query) {
            before.push(
                SearchResultView {
                    file_path: record.path,
                    file_name: name_of(record.path),
                    bookmark,
                },
            )
        } else {
            before
        }
    }
}

/// What a query finds in the first `n` records: file by file, the
/// bookmarks of each file in their order.
pub open spec fn found(records: Seq<RecordView>, query: Seq<char>, n: nat) -> Seq<SearchResultView>
    decreases n,
{
    if n == 0 {
        Seq::empty()
    } else {
        found(records, query, (n - 1) as nat) + found_in(
            records[n - 1],
            query,
            records[n - 1].marks.bookmarks.len(),
        )
    }
}

/// The line of the file list that a record gives.
pub open spec fn list_entry(record: RecordView) -> ListEntryView {
    ListEntryView {
        file_path: record.path,
        file_name: name_of(record.path),
        last_position: record.marks.last_position,
        last_opened: record.marks.last_opened,
        bookmark_count: record.marks.bookmarks.len(),
        favorite: record.marks.favorite,
        display_order: record.marks.display_order,
    }
}

/// The list of tracked files: the files with a place first, by their
/// places, then the others, the one opened last first.
pub open spec fn file_list(records: Seq<RecordView>) -> Seq<ListEntryView> {
    stable_sorted::<FileListEntry>(Seq::new(records.len(), |i: int| list_entry(records[i])))
}

/// What a search from `from` finds is the first record of the path.
pub proof fn lemma_record_from(records: Seq<RecordView>, path: Seq<char>, from: int)
    requires
        0 <= from,
    ensures
        match record_from(records, path, from) {
            Some(p) => from <= p < records.len() && records[p].path == path && forall|j: int|
                from <= j < p ==> (#[trigger] records[j]).path != path,
            None => forall|j: int| from <= j < records.len() ==> (#[trigger] records[j]).path != path,
        },
    decreases records.len() - from,
{
    if from < records.len() && records[from].path != path {
        lemma_record_from(records, path, from + 1);
    }
}

/// Other marks for a file leave every file with one record, and are what
/// is kept of the file afterwards.
pub proof fn lemma_with_marks(records: Seq<RecordView>, path: Seq<char>, marks: FileMarks)
    requires
        distinct_paths(records),
    ensures
        distinct_paths(with_marks(records, path, marks)),
        marks_of(with_marks(records, path, marks), path) == Some(marks),
        forall|other: Seq<char>|
            other != path ==> #[trigger] marks_of(with_marks(records, path, marks), other)
                == marks_of(records, other),
{
    let after = with_marks(records, path, marks);
    lemma_record_from(records, path, 0);
    assert forall|i: int, j: int| 0 <= i < j < after.len() implies (#[trigger] after[i]).path != (
    #[trigger] after[j]).path by {
        if j < records.len() {
            assert(records[i].path != records[j].path);
        }
    }
    lemma_record_from(after, path, 0);
    match record_of(records, path) {
        Some(i) => {
            assert(after[i].path == path);
            let q = record_of(after, path)->0;
            if q != i {
                assert(after[q].path != after[i].path);
            }
        },
        None => {
            assert(after[records.len() as int].path == path);
            let q = record_of(after, path)->0;
            if q < records.len() {
                assert(records[q].path == path);
            }
        },
    }
    assert forall|other: Seq<char>| other != path implies #[trigger] marks_of(after, other)
        == marks_of(records, other) by {
        lemma_record_from(records, other, 0);
        lemma_record_from(after, other, 0);
        match record_of(records, other) {
            Some(k) => {
                assert(after[k].path == other);
                let q = record_of(after, other)->0;
                if q < k {
                    assert(after[q].path == records[q].path);
                }
                assert(q == k);
                assert(after[k].marks == records[k].marks);
            },
            None => {
                if record_of(after, other) is Some {
                    let q = record_of(after, other)->0;
                    if q < records.len() {
                        assert(after[q].path == records[q].path);
                    }
                }
            },
        }
    }
}

/// Without the record of one file every other file has its one record
/// still, and that file has none.
pub proof fn lemma_without_file(records: Seq<RecordView>, path: Seq<char>)
    requires
        distinct_paths(records),
    ensures
        distinct_paths(without_file(records, path)),
        marks_of(without_file(records, path), path) is None,
        forall|other: Seq<char>|
            other != path ==> #[trigger] marks_of(without_file(records, path), other) == marks_of(
                records,
                other,
            ),
{
    let after = without_file(records, path);
    lemma_record_from(records, path, 0);
    lemma_record_from(after, path, 0);
    match record_of(records, path) {
        None => {},
        Some(i) => {
            assert forall|a: int, b: int| 0 <= a < b < after.len() implies (#[trigger] after[a]).path
                != (#[trigger] after[b]).path by {
                let a0 = if a < i {
                    a
                } else {
                    a + 1
                };
                let b0 = if b < i {
                    b
                } else {
                    b + 1
                };
                assert(after[a] == records[a0]);
                assert(after[b] == records[b0]);
                assert(records[a0].path != records[b0].path);
            }
            if record_of(after, path) is Some {
                let q = record_of(after, path)->0;
                let q0 = if q < i {
                    q
                } else {
                    q + 1
                };
                assert(after[q] == records[q0]);
                if q0 < i {
                    assert(records[q0].path != records[i].path);
                } else {
                    assert(records[i].path != records[q0].path);
                }
            }
            assert forall|other: Seq<char>| other != path implies #[trigger] marks_of(
                after,
                other,
            ) == marks_of(records, other) by {
                lemma_record_from(records, other, 0);
                lemma_record_from(after, other, 0);
                match record_of(records, other) {
                    Some(k) => {
                        let k1 = if k < i {
                            k
                        } else {
                            k - 1
                        };
                        assert(after[k1] == records[k]);
                        let q = record_of(after, other)->0;
                        if q < k1 {
                            let q0 = if q < i {
                                q
                            } else {
                                q + 1
                            };
                            assert(after[q] == records[q0]);
                        }
                    },
                    None => {
                        if record_of(after, other) is Some {
                            let q = record_of(after, other)->0;
                            let q0 = if q < i {
                                q
                            } else {
                                q + 1
                            };
                            assert(after[q] == records[q0]);
                        }
                    },
                }
            }
        },
    }
}

// ── the store ───────────────────────────────────────────────────────

/// The bookmarks and reading positions of all tracked files.
///
/// The records stand in a vector, each path once, in the order in which
/// the files were first tracked: every listing walks them all, and walks
/// them in the same order each time.
pub struct BookmarkStore {
    data: Vec<FileRecord>,
}

impl View for BookmarkStore {
    type V = Seq<RecordView>;

    /// The records, in the order in which the files were first tracked.
    closed spec fn view(&self) -> Seq<RecordView> {
        views(self.data@)
    }
}

impl BookmarkStore {
    /// The store is in order: no file has two records.
    pub open spec fn wf(&self) -> bool {
        distinct_paths(self@)
    }

    /// A store that tracks no file.
    pub fn new() -> (store: Self)
        ensures
            store.wf(),
            store@ == Seq::<RecordView>::empty(),
    {
        let store = BookmarkStore { data: Vec::new() };
        assert(store@ =~= Seq::<RecordView>::empty());
        store
    }

    /// Where the record of `file_path` stands.
    fn find(&self, file_path: &str) -> (found: Option<usize>)
        ensures
            match found {
                Some(i) => record_of(self@, file_path@) == Some(i as int) && i < self.data@.len(),
                None => record_of(self@, file_path@) is None,
            },
    {
        let wanted = file_path.to_owned();
        let n = self.data.len();
        let mut i: usize = 0;
        while i < n
            invariant
                n == self.data@.len(),
                i <= n,
                wanted@ == file_path@,
                record_of(self@, file_path@) == record_from(self@, file_path@, i as int),
            decreases n - i,
        {
            if self.data[i].path == wanted {
                return Some(i);
            }
            i = i + 1;
        }
        None
    }

    /// Gives `file_path` the marks `marks`, in place where the file is
    /// tracked, as a new last record where it is not.
    pub fn put(&mut self, file_path: &str, marks: FileBookmarks)
        requires
            old(self).wf(),
        ensures
            final(self).wf(),
            final(self)@ == with_marks(old(self)@, file_path@, marks@),
    {
        proof {
            lemma_with_marks(self@, file_path@, marks@);
        }
        let record = FileRecord { path: file_path.to_owned(), marks };
        match self.find(file_path) {
            Some(i) => {
                self.data.set(i, record);
                assert(self@ =~= with_marks(old(self)@, file_path@, marks@));
            },
            None => {
                self.data.push(record);
                assert(self@ =~= with_marks(old(self)@, file_path@, marks@));
            },
        }
    }

    /// Takes what is kept of `file_path` out of the store, or makes what
    /// is kept of a file first opened at `now`. The store is left as it
    /// is: [`BookmarkStore::put`] writes the marks back.
    fn marks_or_fresh(&self, file_path: &str, now: &str) -> (marks: FileBookmarks)
        ensures
            marks@ == marks_or_fresh(self@, file_path@, now@),
    {
        match self.find(file_path) {
            Some(i) => clone_marks(&self.data[i].marks),
            None => FileBookmarks::opened_at(now),
        }
    }

    /// Adds a bookmark to a file, made at `now`. A file that is not tracked
    /// yet is tracked from `now` on.
    pub fn add_bookmark(&mut self, file_path: &str, position: usize, line: usize, memo: &str, now: &str)
        requires
            old(self).wf(),
        ensures
            final(self).wf(),
            ({
                let marks = marks_or_fresh(old(self)@, file_path@, now@);
                final(self)@ == with_marks(
                    old(self)@,
                    file_path@,
                    FileMarks {
                        bookmarks: marks.bookmarks.push(
                            BookmarkView {
                                position: position as nat,
                                line: line as nat,
                                memo: memo@,
                                created: now@,
                            },
                        ),
                        ..marks
                    },
                )
            }),
    {
        let mut marks = self.marks_or_fresh(file_path, now);
        let bookmark = Bookmark { position, line, memo: memo.to_owned(), created: now.to_owned() };
        proof {
            assert(views(marks.bookmarks@.push(bookmark)) =~= views(marks.bookmarks@).push(
                bookmark@,
            ));
        }
        marks.bookmarks.push(bookmark);
        self.put(file_path, marks);
    }

    /// Removes bookmark `index` of a file. Fails, and changes nothing,
    /// where the file is not tracked or has no such bookmark.
    pub fn remove_bookmark(&mut self, file_path: &str, index: usize) -> (res: Result<
        (),
        BookmarkError,
    >)
        requires
            old(self).wf(),
        ensures
            final(self).wf(),
            match marks_of(old(self)@, file_path@) {
                None => res == Err::<(), BookmarkError>(BookmarkError::FileNotFound) && final(self)@ == old(self)@,
                Some(marks) => if index < marks.bookmarks.len() {
                    res is Ok && final(self)@ == with_marks(
                        old(self)@,
                        file_path@,
                        FileMarks { bookmarks: marks.bookmarks.remove(index as int), ..marks },
                    )
                } else {
                    res == Err::<(), BookmarkError>(BookmarkError::IndexOutOfRange) && final(self)@ == old(self)@
                },
            },
    {
        match self.find(file_path) {
            None => Err(BookmarkError::FileNotFound),
            Some(i) => {
                if index >= self.data[i].marks.bookmarks.len() {
                    return Err(BookmarkError::IndexOutOfRange);
                }
                let mut marks = clone_marks(&self.data[i].marks);
                proof {
                    assert(views(marks.bookmarks@.remove(index as int)) =~= views(
                        marks.bookmarks@,
                    ).remove(index as int));
                }
                marks.bookmarks.remove(index);
                self.put(file_path, marks);
                Ok(())
            },
        }
    }

    /// The bookmarks of a file, none where the file is not tracked.
    pub fn get_bookmarks(&self, file_path: &str) -> (bookmarks: Vec<Bookmark>)
        ensures
            views(bookmarks@) == match marks_of(self@, file_path@) {
                Some(marks) => marks.bookmarks,
                None => Seq::empty(),
            },
    {
        match self.find(file_path) {
            Some(i) => clone_bookmarks(&self.data[i].marks.bookmarks),
            None => {
                let none: Vec<Bookmark> = Vec::new();
                assert(views(none@) =~= Seq::<BookmarkView>::empty());
                none
            },
        }
    }

    /// The records of all tracked files.
    pub fn get_all_bookmarks(&self) -> (records: &Vec<FileRecord>)
        ensures
            views(records@) == self@,
    {
        &self.data
    }

    /// Where reading of a file stopped: the position and the scroll
    /// offset, if the file is tracked.
    pub fn get_last_position(&self, file_path: &str) -> (place: Option<(usize, usize)>)
        ensures
            match marks_of(self@, file_path@) {
                Some(marks) => place matches Some(p) && p.0 == marks.last_position && p.1
                    == marks.last_scroll_offset,
                None => place is None,
            },
    {
        match self.find(file_path) {
            Some(i) => Some(
                (self.data[i].marks.last_position, self.data[i].marks.last_scroll_offset),
            ),
            None => None,
        }
    }

    /// Notes where reading of a file stopped, at `now`. Does nothing where
    /// the file is not tracked.
    pub fn save_last_position(&mut self, file_path: &str, position: usize, scroll_offset: usize, now: &str)
        requires
            old(self).wf(),
        ensures
            final(self).wf(),
            final(self)@ == match marks_of(old(self)@, file_path@) {
                Some(marks) => with_marks(
                    old(self)@,
                    file_path@,
                    FileMarks {
                        last_position: position as nat,
                        last_scroll_offset: scroll_offset as nat,
                        last_opened: now@,
                        ..marks
                    },
                ),
                None => old(self)@,
            },
    {
        match self.find(file_path) {
            None => {},
            Some(i) => {
                let mut marks = clone_marks(&self.data[i].marks);
                marks.last_position = position;
                marks.last_scroll_offset = scroll_offset;
                marks.last_opened = now.to_owned();
                self.put(file_path, marks);
            },
        }
    }

    /// Notes that a file was opened at `now`, and tracks it from then on
    /// where it was not tracked.
    pub fn track_file_open(&mut self, file_path: &str, now: &str)
        requires
            old(self).wf(),
        ensures
            final(self).wf(),
            final(self)@ == with_marks(
                old(self)@,
                file_path@,
                FileMarks { last_opened: now@, ..marks_or_fresh(old(self)@, file_path@, now@) },
            ),
    {
        let mut marks = self.marks_or_fresh(file_path, now);
        marks.last_opened = now.to_owned();
        self.put(file_path, marks);
    }

    /// Marks or unmarks a file as a favorite and says what it is now. A
    /// file that is not tracked yet is tracked from `now` on, as a
    /// favorite.
    pub fn toggle_favorite(&mut self, file_path: &str, now: &str) -> (favorite: bool)
        requires
            old(self).wf(),
        ensures
            final(self).wf(),
            favorite == !marks_or_fresh(old(self)@, file_path@, now@).favorite,
            final(self)@ == with_marks(
                old(self)@,
                file_path@,
                FileMarks { favorite, ..marks_or_fresh(old(self)@, file_path@, now@) },
            ),
    {
        let mut marks = self.marks_or_fresh(file_path, now);
        let state = !marks.favorite;
        marks.favorite = state;
        self.put(file_path, marks);
        state
    }

    /// Moves bookmark `from` of a file to place `to`. Fails, and changes
    /// nothing, where the file is not tracked or has no such bookmarks.
    pub fn move_bookmark(&mut self, file_path: &str, from: usize, to: usize) -> (res: Result<
        (),
        BookmarkError,
    >)
        requires
            old(self).wf(),
        ensures
            final(self).wf(),
            match marks_of(old(self)@, file_path@) {
                None => res == Err::<(), BookmarkError>(BookmarkError::FileNotFound) && final(self)@ == old(self)@,
                Some(marks) => if from < marks.bookmarks.len() && to < marks.bookmarks.len() {
                    res is Ok && final(self)@ == with_marks(
                        old(self)@,
                        file_path@,
                        FileMarks {
                            bookmarks: marks.bookmarks.remove(from as int).insert(
                                to as int,
                                marks.bookmarks[from as int],
                            ),
                            ..marks
                        },
                    )
                } else {
                    res == Err::<(), BookmarkError>(BookmarkError::IndexOutOfRange) && final(self)@ == old(self)@
                },
            },
    {
        match self.find(file_path) {
            None => Err(BookmarkError::FileNotFound),
            Some(i) => {
                let count = self.data[i].marks.bookmarks.len();
                if from >= count || to >= count {
                    return Err(BookmarkError::IndexOutOfRange);
                }
                let mut marks = clone_marks(&self.data[i].marks);
                let ghost list = marks.bookmarks@;
                let item = marks.bookmarks.remove(from);
                marks.bookmarks.insert(to, item);
                proof {
                    assert(views(list.remove(from as int).insert(to as int, item)) =~= views(
                        list,
                    ).remove(from as int).insert(to as int, item@));
                }
                self.put(file_path, marks);
                Ok(())
            },
        }
    }

    /// Forgets a file and all its bookmarks.
    pub fn remove_file_entry(&mut self, file_path: &str)
        requires
            old(self).wf(),
        ensures
            final(self).wf(),
            final(self)@ == without_file(old(self)@, file_path@),
    {
        proof {
            lemma_without_file(self@, file_path@);
        }
        match self.find(file_path) {
            None => {},
            Some(i) => {
                self.data.remove(i);
                assert(self@ =~= old(self)@.remove(i as int));
            },
        }
    }

    /// Gives the tracked files among `ordered_paths` their places in the
    /// list: each its ordinal in `ordered_paths`.
    pub fn reorder_file_list(&mut self, ordered_paths: &Vec<String>)
        requires
            old(self).wf(),
        ensures
            final(self).wf(),
            final(self)@ == reordered(
                old(self)@,
                crate::image_reader::strings_of(ordered_paths@),
                ordered_paths@.len() as nat,
            ),
    {
        let n = ordered_paths.len();
        let ghost paths = crate::image_reader::strings_of(ordered_paths@);
        let mut i: usize = 0;
        while i < n
            invariant
                n == ordered_paths@.len(),
                paths == crate::image_reader::strings_of(ordered_paths@),
                i <= n,
                self.wf(),
                self@ == reordered(old(self)@, paths, i as nat),
            decreases n - i,
        {
            let path = ordered_paths[i].as_str();
            assert(paths[i as int] == path@);
            match self.find(path) {
                None => {},
                Some(k) => {
                    let mut marks = clone_marks(&self.data[k].marks);
                    marks.display_order = Some(i);
                    self.put(path, marks);
                },
            }
            i = i + 1;
        }
    }

    /// The bookmarks that a query finds: those whose memo, or whose file's
    /// name, holds the query, upper and lower case taken as the same.
    pub fn search_bookmarks(&self, query: &str) -> (results: Vec<BookmarkSearchResult>)
        ensures
            views(results@) == found(self@, query@, self@.len()),
    {
        let query_lower = chars_of(query.to_lowercase().as_str());
        let n = self.data.len();
        let mut results: Vec<BookmarkSearchResult> = Vec::new();
        let mut i: usize = 0;
        assert(views(results@) =~= found(self@, query@, 0));
        while i < n
            invariant
                n == self.data@.len(),
                n == self@.len(),
                i <= n,
                query_lower@ == lowercased(query@),
                views(results@) == found(self@, query@, i as nat),
            decreases n - i,
        {
            let record = &self.data[i];
            assert(self@[i as int] == record@);
            let file_name = file_name_or_empty(record.path.as_str());
            let name_lower = chars_of(file_name.to_lowercase().as_str());
            let name_found = chars_contain(name_lower.as_slice(), query_lower.as_slice());
            let m = record.marks.bookmarks.len();
            let ghost done = views(results@);
            let mut k: usize = 0;
            assert(done + found_in(record@, query@, 0) =~= done);
            while k < m
                invariant
                    m == record.marks.bookmarks@.len(),
                    m == record@.marks.bookmarks.len(),
                    k <= m,
                    file_name@ == name_of(record@.path),
                    query_lower@ == lowercased(query@),
                    name_found == contains(lowercased(name_of(record@.path)), lowercased(query@)),
                    views(results@) == done + found_in(record@, query@, k as nat),
                decreases m - k,
            {
                let bookmark = &record.marks.bookmarks[k];
                assert(record@.marks.bookmarks[k as int] == bookmark@);
                let memo_lower = chars_of(bookmark.memo.to_lowercase().as_str());
                if name_found || chars_contain(memo_lower.as_slice(), query_lower.as_slice()) {
                    let hit = BookmarkSearchResult {
                        file_path: record.path.clone(),
                        file_name: file_name.clone(),
                        bookmark: bookmark.clone(),
                    };
                    proof {
                        let so_far = found_in(record@, query@, k as nat);
                        assert(views(results@.push(hit)) =~= views(results@).push(hit@));
                        assert((done + so_far).push(hit@) =~= done + so_far.push(hit@));
                    }
                    results.push(hit);
                }
                k = k + 1;
            }
            i = i + 1;
        }
        results
    }

    /// The list of tracked files: the files with a place in the list
    /// first, by their places, then the others, the one opened last first.
    pub fn get_file_list(&self) -> (entries: Vec<FileListEntry>)
        ensures
            views(entries@) == file_list(self@),
    {
        let n = self.data.len();
        let mut entries: Vec<FileListEntry> = Vec::with_capacity(n);
        let mut i: usize = 0;
        while i < n
            invariant
                n == self.data@.len(),
                n == self@.len(),
                i <= n,
                entries@.len() == i,
                forall|j: int| 0 <= j < i ==> (#[trigger] entries@[j])@ == list_entry(self@[j]),
            decreases n - i,
        {
            let record = &self.data[i];
            assert(self@[i as int] == record@);
            entries.push(
                FileListEntry {
                    file_path: record.path.clone(),
                    file_name: file_name_or_empty(record.path.as_str()),
                    last_position: record.marks.last_position,
                    last_opened: record.marks.last_opened.clone(),
                    bookmark_count: record.marks.bookmarks.len(),
                    favorite: record.marks.favorite,
                    display_order: record.marks.display_order,
                },
            );
            i = i + 1;
        }
        assert(views(entries@) =~= Seq::new(self@.len(), |i: int| list_entry(self@[i])));
        stable_sort(entries)
    }
}

/// Copies what is kept of a file.
pub fn clone_marks(marks: &FileBookmarks) -> (copy: FileBookmarks)
    ensures
        copy@ == marks@,
{
    FileBookmarks {
        last_position: marks.last_position,
        last_opened: marks.last_opened.clone(),
        bookmarks: clone_bookmarks(&marks.bookmarks),
        favorite: marks.favorite,
        last_scroll_offset: marks.last_scroll_offset,
        display_order: marks.display_order,
    }
}

} // verus!
