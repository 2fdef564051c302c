//! A text that is edited, with what it takes to undo and redo the edits.
//!
//! The text is kept in a rope. Places in it are counted in characters; a
//! place behind the end of the text counts as the end.

use vstd::prelude::*;
use vstd::utf8::{decode_utf8, encode_utf8, valid_utf8};

use crate::outside::{
    decode_text, decoding, encoding_for_label, guess_encoding, guessed_encoding, is_utf8,
    windows_1252,
    labelled_encoding, line_count, line_start, line_text, rope_chars, rope_from_str, rope_insert,
    rope_len_chars, rope_len_lines, rope_line, rope_line_to_char, rope_new, rope_remove,
    rope_slice, rope_to_string, utf8_lossy,
};
use crate::text::{chars_of, string_of};

verus! {

/// The most edits that can be undone.
pub const MAX_UNDO: usize = 100;

/// One edit, as a value.
pub enum EditView {
    Insert { position: nat, text: Seq<char> },
    Delete { position: nat, text: Seq<char> },
    Replace { position: nat, old_text: Seq<char>, new_text: Seq<char> },
}

/// One edit: what was put in or taken out, and where.
#[derive(Debug)]
pub enum EditOperation {
    Insert { position: usize, text: String },
    Delete { position: usize, text: String },
    Replace { position: usize, old_text: String, new_text: String },
}

impl View for EditOperation {
    type V = EditView;

    open spec fn view(&self) -> EditView {
        match self {
            EditOperation::Insert { position, text } => EditView::Insert {
                position: *position as nat,
                text: text@,
            },
            EditOperation::Delete { position, text } => EditView::Delete {
                position: *position as nat,
                text: text@,
            },
            EditOperation::Replace { position, old_text, new_text } => EditView::Replace {
                position: *position as nat,
                old_text: old_text@,
                new_text: new_text@,
            },
        }
    }
}

/// The edits that a stack holds, the latest last.
pub open spec fn edits_of(stack: Seq<EditOperation>) -> Seq<EditView> {
    Seq::new(stack.len(), |i: int| stack[i]@)
}

// ── the model ───────────────────────────────────────────────────────

/// The place `at` in a text of `len` characters.
pub open spec fn clamped(at: int, len: int) -> int {
    if at <= len {
        at
    } else {
        len
    }
}

/// The text with the characters from `start` to `end` replaced by `with`.
pub open spec fn spliced(text: Seq<char>, start: int, end: int, with: Seq<char>) -> Seq<char> {
    text.subrange(0, start) + with + text.subrange(end, text.len() as int)
}

/// The text with `piece` put in at `at`.
pub open spec fn with_piece(text: Seq<char>, at: int, piece: Seq<char>) -> Seq<char> {
    let place = clamped(at, text.len() as int);
    spliced(text, place, place, piece)
}

/// The text without the `count` characters from `at` on, as far as they
/// are there.
pub open spec fn without_piece(text: Seq<char>, at: int, count: int) -> Seq<char> {
    let start = clamped(at, text.len() as int);
    let end = clamped(at + count, text.len() as int);
    spliced(text, start, end, Seq::empty())
}

/// The text after an edit was made.
pub open spec fn applied(text: Seq<char>, op: EditView) -> Seq<char> {
    match op {
        EditView::Insert { position, text: piece } => with_piece(text, position as int, piece),
        EditView::Delete { position, text: piece } => without_piece(
            text,
            position as int,
            piece.len() as int,
        ),
        EditView::Replace { position, old_text, new_text } => with_piece(
            without_piece(text, position as int, old_text.len() as int),
            position as int,
            new_text,
        ),
    }
}

/// The text after an edit was taken back.
pub open spec fn reverted(text: Seq<char>, op: EditView) -> Seq<char> {
    match op {
        EditView::Insert { position, text: piece } => without_piece(
            text,
            position as int,
            piece.len() as int,
        ),
        EditView::Delete { position, text: piece } => with_piece(text, position as int, piece),
        EditView::Replace { position, old_text, new_text } => with_piece(
            without_piece(text, position as int, new_text.len() as int),
            position as int,
            old_text,
        ),
    }
}

/// The undo stack with one more edit: of more than 100 edits the oldest
/// are forgotten.
pub open spec fn remembered(stack: Seq<EditView>, op: EditView) -> Seq<EditView> {
    let all = stack.push(op);
    if all.len() > MAX_UNDO {
        all.skip(all.len() - MAX_UNDO)
    } else {
        all
    }
}

/// Whether an edit fits a text: what it took out stands where it says, or
/// what it put in goes where it says.
pub open spec fn fits(text: Seq<char>, op: EditView) -> bool {
    match op {
        EditView::Insert { position, .. } => position <= text.len(),
        EditView::Delete { position, text: piece } => position + piece.len() <= text.len()
            && text.subrange(position as int, (position + piece.len()) as int) == piece,
        EditView::Replace { position, old_text, .. } => position + old_text.len() <= text.len()
            && text.subrange(position as int, (position + old_text.len()) as int) == old_text,
    }
}

/// Taking an edit back restores the text that the edit was made on.
pub proof fn lemma_revert_restores(text: Seq<char>, op: EditView)
    requires
        fits(text, op),
    ensures
        reverted(applied(text, op), op) == text,
{
    match op {
        EditView::Insert { position, text: piece } => {
            assert(reverted(applied(text, op), op) =~= text);
        },
        EditView::Delete { position, text: piece } => {
            assert(reverted(applied(text, op), op) =~= text);
        },
        EditView::Replace { position, old_text, new_text } => {
            let cut = without_piece(text, position as int, old_text.len() as int);
            assert(cut =~= text.subrange(0, position as int) + text.subrange(
                (position + old_text.len()) as int,
                text.len() as int,
            ));
            let put = with_piece(cut, position as int, new_text);
            assert(put =~= text.subrange(0, position as int) + new_text + text.subrange(
                (position + old_text.len()) as int,
                text.len() as int,
            ));
            let back = without_piece(put, position as int, new_text.len() as int);
            assert(back =~= cut);
            assert(with_piece(back, position as int, old_text) =~= text);
        },
    }
}

/// Making an edit again after it was taken back gives the text that the
/// edit had made.
pub proof fn lemma_redo_restores(text: Seq<char>, op: EditView)
    requires
        fits(text, op),
    ensures
        applied(reverted(applied(text, op), op), op) == applied(text, op),
{
    lemma_revert_restores(text, op);
}

// ── files as text ───────────────────────────────────────────────────

/// The bytes without a leading UTF-8 byte order mark.
pub open spec fn without_bom(raw: Seq<u8>) -> Seq<u8> {
    if raw.len() >= 3 && raw[0] == 0xEF && raw[1] == 0xBB && raw[2] == 0xBF {
        raw.skip(3)
    } else {
        raw
    }
}

/// The text of a file. Well-formed UTF-8 is read as it stands. Everything
/// else is read in the encoding that is guessed for it, and where that
/// leaves malformed sequences, as EUC-KR, or in the encoding `last_resort`
/// where no encoding goes by that label.
pub open spec fn file_text(raw: Seq<u8>, last_resort: &encoding_rs::Encoding) -> Seq<char> {
    let bytes = without_bom(raw);
    if valid_utf8(bytes) {
        decode_utf8(bytes)
    } else {
        let guess = decoding(guessed_encoding(bytes), bytes);
        if !guess.1 {
            guess.0
        } else {
            match labelled_encoding(encode_utf8("euc-kr"@)) {
                Some(fallback) => decoding(fallback, bytes).0,
                None => decoding(last_resort, bytes).0,
            }
        }
    }
}

/// Reads the bytes of a file as text, with `last_resort` as the encoding
/// to fall back on last.
pub fn decode_file_with(raw: &[u8], last_resort: &'static encoding_rs::Encoding) -> (text: String)
    requires
        raw@.len() <= usize::MAX / 8,
    ensures
        text@ == file_text(raw@, last_resort),
{
    let bytes = if raw.len() >= 3 && raw[0] == 0xEF && raw[1] == 0xBB && raw[2] == 0xBF {
        let rest = vstd::slice::slice_subrange(raw, 3, raw.len());
        assert(rest@ =~= raw@.skip(3));
        rest
    } else {
        raw
    };
    if is_utf8(bytes) {
        return utf8_lossy(bytes);
    }
    let encoding = guess_encoding(bytes);
    let (decoded, had_errors) = decode_text(encoding, bytes);
    if !had_errors {
        return decoded;
    }
    match encoding_for_label("euc-kr".as_bytes()) {
        Some(fallback) => decode_text(fallback, bytes).0,
        None => decode_text(last_resort, bytes).0,
    }
}

/// Reads the bytes of a file as text, falling back on windows-1252 last.
/// Which encoding goes by that name is not stated here: the text is what
/// [`file_text`] says for the encoding that was found under it.
pub fn decode_file(raw: &[u8]) -> (text: String)
    requires
        raw@.len() <= usize::MAX / 8,
    ensures
        exists|last_resort: &'static encoding_rs::Encoding|
            text@ == #[trigger] file_text(raw@, last_resort),
{
    let last_resort = windows_1252();
    let text = decode_file_with(raw, last_resort);
    assert(text@ == file_text(raw@, last_resort));
    text
}

// ── the buffer ──────────────────────────────────────────────────────

/// A text with its history of edits.
pub struct TextBuffer {
    rope: ropey::Rope,
    undo_stack: Vec<EditOperation>,
    redo_stack: Vec<EditOperation>,
    pub is_modified: bool,
}

/// The length of a line without its line break: a line that ends in a
/// carriage return and a line feed is two shorter, a line that ends in one
/// of them is one shorter.
pub open spec fn content_len(line: Seq<char>) -> int {
    let n = line.len() as int;
    if n >= 2 && line[n - 2] == '\r' && line[n - 1] == '\n' {
        n - 2
    } else if n >= 1 && (line[n - 1] == '\n' || line[n - 1] == '\r') {
        n - 1
    } else {
        n
    }
}

/// The length of a text without the line feeds and carriage returns at
/// its end.
pub open spec fn trimmed_len(text: Seq<char>) -> int
    decreases text.len(),
{
    if text.len() > 0 && (text.last() == '\n' || text.last() == '\r') {
        trimmed_len(text.drop_last())
    } else {
        text.len() as int
    }
}

/// The text without the line feeds and carriage returns at its end.
pub open spec fn trimmed_end(text: Seq<char>) -> Seq<char> {
    text.subrange(0, trimmed_len(text))
}

impl TextBuffer {
    /// The text.
    pub closed spec fn text(&self) -> Seq<char> {
        rope_chars(self.rope)
    }

    /// The edits that can be undone, the latest last.
    pub closed spec fn undo_edits(&self) -> Seq<EditView> {
        edits_of(self.undo_stack@)
    }

    /// The edits that can be made again, the one undone last last.
    pub closed spec fn redo_edits(&self) -> Seq<EditView> {
        edits_of(self.redo_stack@)
    }

    /// Whether the text counts as modified.
    pub closed spec fn modified(&self) -> bool {
        self.is_modified
    }

    /// Whether the buffer holds this text, unedited.
    pub open spec fn is_fresh(&self, text: Seq<char>) -> bool {
        &&& self.text() == text
        &&& self.undo_edits() == Seq::<EditView>::empty()
        &&& self.redo_edits() == Seq::<EditView>::empty()
        &&& !self.modified()
    }

    /// A buffer for the bytes of a file, read as [`decode_file`] reads
    /// them.
    pub fn from_bytes(raw: &[u8]) -> (buffer: Self)
        requires
            raw@.len() <= usize::MAX / 8,
        ensures
            exists|last_resort: &'static encoding_rs::Encoding| #[trigger]
                buffer.is_fresh(file_text(raw@, last_resort)),
    {
        let text = decode_file(raw);
        let buffer = Self::from_string(text.as_str());
        proof {
            let last_resort = choose|last_resort: &'static encoding_rs::Encoding|
                text@ == #[trigger] file_text(raw@, last_resort);
            assert(buffer.is_fresh(file_text(raw@, last_resort)));
        }
        buffer
    }

    /// A buffer for a text.
    pub fn from_string(text: &str) -> (buffer: Self)
        ensures
            buffer.is_fresh(text@),
    {
        let buffer = TextBuffer {
            rope: rope_from_str(text),
            undo_stack: Vec::new(),
            redo_stack: Vec::new(),
            is_modified: false,
        };
        assert(buffer.undo_edits() =~= Seq::<EditView>::empty());
        assert(buffer.redo_edits() =~= Seq::<EditView>::empty());
        buffer
    }

    /// An empty buffer.
    pub fn new() -> (buffer: Self)
        ensures
            buffer.is_fresh(Seq::empty()),
    {
        let buffer = TextBuffer {
            rope: rope_new(),
            undo_stack: Vec::new(),
            redo_stack: Vec::new(),
            is_modified: false,
        };
        assert(buffer.undo_edits() =~= Seq::<EditView>::empty());
        assert(buffer.redo_edits() =~= Seq::<EditView>::empty());
        buffer
    }

    /// The lines from `start_line` up to, not including, `end_line`, as far
    /// as the text has them, each with its line break.
    pub fn get_chunk(&self, start_line: usize, end_line: usize) -> (lines: Vec<String>)
        ensures
            ({
                let total = line_count(self.text()) as int;
                let start = clamped(start_line as int, total);
                let end = clamped(end_line as int, total);
                &&& lines@.len() == if start < end {
                    end - start
                } else {
                    0
                }
                &&& forall|k: int|
                    0 <= k < lines@.len() ==> (#[trigger] lines@[k])@ == line_text(
                        self.text(),
                        start + k,
                    )
            }),
    {
        let total = rope_len_lines(&self.rope);
        let start = if start_line < total {
            start_line
        } else {
            total
        };
        let end = if end_line < total {
            end_line
        } else {
            total
        };
        let mut lines: Vec<String> = Vec::new();
        let mut i: usize = start;
        while i < end
            invariant
                total == line_count(self.text()),
                end <= total,
                start <= i,
                start < end ==> i <= end,
                start >= end ==> i == start,
                lines@.len() == i - start,
                forall|k: int|
                    0 <= k < lines@.len() ==> (#[trigger] lines@[k])@ == line_text(
                        self.text(),
                        start + k,
                    ),
            decreases end - i,
        {
            lines.push(rope_line(&self.rope, i));
            i = i + 1;
        }
        lines
    }

    /// Remembers an edit for undoing; of more than 100 edits the oldest
    /// are forgotten.
    fn push_undo(&mut self, op: EditOperation)
        ensures
            final(self).undo_edits() == remembered(old(self).undo_edits(), op@),
            final(self).text() == old(self).text(),
            final(self).redo_edits() == old(self).redo_edits(),
            final(self).modified() == old(self).modified(),
    {
        let ghost before = self.undo_edits();
        self.undo_stack.push(op);
        assert(edits_of(self.undo_stack@) =~= before.push(op@));
        while self.undo_stack.len() > MAX_UNDO
            invariant
                self.rope == old(self).rope,
                self.redo_stack == old(self).redo_stack,
                self.is_modified == old(self).modified(),
                self.undo_stack@.len() <= before.len() + 1,
                self.undo_stack@.len() >= MAX_UNDO || self.undo_stack@.len() == before.len() + 1,
                edits_of(self.undo_stack@) == before.push(op@).skip(
                    before.len() + 1 - self.undo_stack@.len(),
                ),
            decreases self.undo_stack@.len(),
        {
            let ghost s = edits_of(self.undo_stack@);
            self.undo_stack.remove(0);
            assert(edits_of(self.undo_stack@) =~= s.skip(1));
            assert(s.skip(1) =~= before.push(op@).skip(
                before.len() + 1 - self.undo_stack@.len(),
            ));
        }
        assert(before.push(op@).skip(0) =~= before.push(op@));
    }

    /// Forgets what could be made again.
    fn clear_redo(&mut self)
        ensures
            final(self).redo_edits() == Seq::<EditView>::empty(),
            final(self).text() == old(self).text(),
            final(self).undo_edits() == old(self).undo_edits(),
            final(self).modified() == old(self).modified(),
    {
        self.redo_stack.clear();
        assert(edits_of(self.redo_stack@) =~= Seq::<EditView>::empty());
    }

    /// Puts text in before character `char_pos`.
    pub fn insert_text(&mut self, char_pos: usize, text: &str)
        ensures
            ({
                let at = clamped(char_pos as int, old(self).text().len() as int);
                &&& final(self).text() == with_piece(old(self).text(), char_pos as int, text@)
                &&& final(self).undo_edits() == remembered(
                    old(self).undo_edits(),
                    (EditView::Insert { position: at as nat, text: text@ }),
                )
            }),
            final(self).redo_edits() == Seq::<EditView>::empty(),
            final(self).modified(),
    {
        let len = rope_len_chars(&self.rope);
        let pos = if char_pos < len {
            char_pos
        } else {
            len
        };
        rope_insert(&mut self.rope, pos, text);
        self.push_undo(EditOperation::Insert { position: pos, text: text.to_owned() });
        self.clear_redo();
        self.is_modified = true;
    }

    /// Takes out the characters from `start_char` up to, not including,
    /// `end_char`, as far as they are there. Where that is nothing, nothing
    /// changes.
    pub fn delete_text(&mut self, start_char: usize, end_char: usize)
        ensures
            ({
                let len = old(self).text().len() as int;
                let start = clamped(start_char as int, len);
                let end = clamped(end_char as int, len);
                if start >= end {
                    &&& final(self).text() == old(self).text()
                    &&& final(self).undo_edits() == old(self).undo_edits()
                    &&& final(self).redo_edits() == old(self).redo_edits()
                    &&& final(self).modified() == old(self).modified()
                } else {
                    &&& final(self).text() == spliced(old(self).text(), start, end, Seq::empty())
                    &&& final(self).undo_edits() == remembered(
                        old(self).undo_edits(),
                        (EditView::Delete {
                            position: start as nat,
                            text: old(self).text().subrange(start, end),
                        }),
                    )
                    &&& final(self).redo_edits() == Seq::<EditView>::empty()
                    &&& final(self).modified()
                }
            }),
    {
        let total = rope_len_chars(&self.rope);
        let start = if start_char < total {
            start_char
        } else {
            total
        };
        let end = if end_char < total {
            end_char
        } else {
            total
        };
        if start >= end {
            return ;
        }
        let deleted = rope_slice(&self.rope, start, end);
        rope_remove(&mut self.rope, start, end);
        assert(self.text() =~= spliced(old(self).text(), start as int, end as int, Seq::empty()));
        self.push_undo(EditOperation::Delete { position: start, text: deleted });
        self.clear_redo();
        self.is_modified = true;
    }

    /// Takes out the `count` characters from `at` on, as far as they are
    /// there.
    fn cut(&mut self, at: usize, count: usize)
        ensures
            final(self).text() == without_piece(old(self).text(), at as int, count as int),
            final(self).undo_edits() == old(self).undo_edits(),
            final(self).redo_edits() == old(self).redo_edits(),
            final(self).modified() == old(self).modified(),
    {
        let total = rope_len_chars(&self.rope);
        let start = if at < total {
            at
        } else {
            total
        };
        let end = if count < total - start {
            start + count
        } else {
            total
        };
        rope_remove(&mut self.rope, start, end);
    }

    /// Puts `piece` in at `at`, or at the end where `at` lies behind it.
    fn paste(&mut self, at: usize, piece: &str)
        ensures
            final(self).text() == with_piece(old(self).text(), at as int, piece@),
            final(self).undo_edits() == old(self).undo_edits(),
            final(self).redo_edits() == old(self).redo_edits(),
            final(self).modified() == old(self).modified(),
    {
        let total = rope_len_chars(&self.rope);
        let place = if at < total {
            at
        } else {
            total
        };
        rope_insert(&mut self.rope, place, piece);
    }

    /// Makes an edit on the text.
    fn apply(&mut self, op: &EditOperation)
        ensures
            final(self).text() == applied(old(self).text(), op@),
            final(self).undo_edits() == old(self).undo_edits(),
            final(self).redo_edits() == old(self).redo_edits(),
            final(self).modified() == old(self).modified(),
    {
        match op {
            EditOperation::Insert { position, text } => {
                self.paste(*position, text.as_str());
            },
            EditOperation::Delete { position, text } => {
                let count = chars_of(text.as_str()).len();
                self.cut(*position, count);
            },
            EditOperation::Replace { position, old_text, new_text } => {
                let count = chars_of(old_text.as_str()).len();
                self.cut(*position, count);
                self.paste(*position, new_text.as_str());
            },
        }
    }

    /// Takes an edit back.
    fn revert(&mut self, op: &EditOperation)
        ensures
            final(self).text() == reverted(old(self).text(), op@),
            final(self).undo_edits() == old(self).undo_edits(),
            final(self).redo_edits() == old(self).redo_edits(),
            final(self).modified() == old(self).modified(),
    {
        match op {
            EditOperation::Insert { position, text } => {
                let count = chars_of(text.as_str()).len();
                self.cut(*position, count);
            },
            EditOperation::Delete { position, text } => {
                self.paste(*position, text.as_str());
            },
            EditOperation::Replace { position, old_text, new_text } => {
                let count = chars_of(new_text.as_str()).len();
                self.cut(*position, count);
                self.paste(*position, old_text.as_str());
            },
        }
    }

    /// Takes the last edit back and says whether there was one. The text
    /// counts as modified as long as an edit is left to take back.
    pub fn undo(&mut self) -> (done: bool)
        ensures
            done == (old(self).undo_edits().len() > 0),
            done ==> {
                &&& final(self).text() == reverted(old(self).text(), old(self).undo_edits().last())
                &&& final(self).undo_edits() == old(self).undo_edits().drop_last()
                &&& final(self).redo_edits() == old(self).redo_edits().push(
                    old(self).undo_edits().last(),
                )
                &&& final(self).modified() == (old(self).undo_edits().len() > 1)
            },
            !done ==> {
                &&& final(self).text() == old(self).text()
                &&& final(self).undo_edits() == old(self).undo_edits()
                &&& final(self).redo_edits() == old(self).redo_edits()
                &&& final(self).modified() == old(self).modified()
            },
    {
        let ghost undo = self.undo_edits();
        let ghost redo = self.redo_edits();
        match self.undo_stack.pop() {
            None => false,
            Some(op) => {
                assert(edits_of(self.undo_stack@) =~= undo.drop_last());
                assert(op@ == undo.last());
                self.revert(&op);
                assert(edits_of(self.redo_stack@.push(op)) =~= redo.push(op@));
                self.redo_stack.push(op);
                self.is_modified = self.undo_stack.len() > 0;
                true
            },
        }
    }

    /// Makes the edit again that was taken back last, and says whether
    /// there was one.
    pub fn redo(&mut self) -> (done: bool)
        ensures
            done == (old(self).redo_edits().len() > 0),
            done ==> {
                &&& final(self).text() == applied(old(self).text(), old(self).redo_edits().last())
                &&& final(self).redo_edits() == old(self).redo_edits().drop_last()
                &&& final(self).undo_edits() == old(self).undo_edits().push(
                    old(self).redo_edits().last(),
                )
                &&& final(self).modified()
            },
            !done ==> {
                &&& final(self).text() == old(self).text()
                &&& final(self).undo_edits() == old(self).undo_edits()
                &&& final(self).redo_edits() == old(self).redo_edits()
                &&& final(self).modified() == old(self).modified()
            },
    {
        let ghost undo = self.undo_edits();
        let ghost redo = self.redo_edits();
        match self.redo_stack.pop() {
            None => false,
            Some(op) => {
                assert(edits_of(self.redo_stack@) =~= redo.drop_last());
                assert(op@ == redo.last());
                self.apply(&op);
                assert(edits_of(self.undo_stack@.push(op)) =~= undo.push(op@));
                self.undo_stack.push(op);
                self.is_modified = true;
                true
            },
        }
    }

    /// Notes that the text was saved: it counts as unmodified, and no edit
    /// can be taken back or made again.
    pub fn mark_saved(&mut self)
        ensures
            final(self).is_fresh(old(self).text()),
    {
        self.is_modified = false;
        self.undo_stack.clear();
        self.redo_stack.clear();
        assert(self.undo_edits() =~= Seq::<EditView>::empty());
        assert(self.redo_edits() =~= Seq::<EditView>::empty());
    }

    /// The number of lines.
    pub fn get_total_lines(&self) -> (n: usize)
        ensures
            n == line_count(self.text()),
    {
        rope_len_lines(&self.rope)
    }

    /// The number of characters.
    pub fn get_total_chars(&self) -> (n: usize)
        ensures
            n == self.text().len(),
    {
        rope_len_chars(&self.rope)
    }

    /// The rope that holds the text.
    pub fn rope(&self) -> (rope: &ropey::Rope)
        ensures
            rope_chars(*rope) == self.text(),
    {
        &self.rope
    }

    /// Puts another rope in the place of the text, the history of edits
    /// left as it is.
    pub fn set_rope(&mut self, rope: ropey::Rope)
        ensures
            final(self).text() == rope_chars(rope),
            final(self).undo_edits() == old(self).undo_edits(),
            final(self).redo_edits() == old(self).redo_edits(),
            final(self).modified() == old(self).modified(),
    {
        self.rope = rope;
    }

    /// Puts a new text in the place of the whole text. The change can be
    /// taken back in two steps.
    pub fn replace_all(&mut self, new_text: &str)
        ensures
            final(self).text() == new_text@,
            final(self).undo_edits() == remembered(
                remembered(
                    old(self).undo_edits(),
                    (EditView::Delete { position: 0, text: old(self).text() }),
                ),
                (EditView::Insert { position: 0, text: new_text@ }),
            ),
            final(self).redo_edits() == Seq::<EditView>::empty(),
            final(self).modified(),
    {
        let old_text = rope_to_string(&self.rope);
        self.rope = rope_from_str(new_text);
        self.push_undo(EditOperation::Delete { position: 0, text: old_text });
        self.push_undo(EditOperation::Insert { position: 0, text: new_text.to_owned() });
        self.clear_redo();
        self.is_modified = true;
    }

    /// The whole text.
    pub fn to_string_full(&self) -> (text: String)
        ensures
            text@ == self.text(),
    {
        rope_to_string(&self.rope)
    }

    /// Puts a new text in the place of line `line_idx`, the line break of
    /// the line kept and line breaks at the end of the new text left out.
    /// Says whether there is such a line; where there is none, nothing
    /// changes.
    pub fn replace_line(&mut self, line_idx: usize, new_text: &str) -> (done: bool)
        ensures
            ({
                let text = old(self).text();
                let start = line_start(text, line_idx as int);
                let end = start + content_len(line_text(text, line_idx as int));
                let found = line_idx < line_count(text);
                &&& done == found
                &&& found ==> {
                    &&& final(self).text() == spliced(text, start, end, trimmed_end(new_text@))
                    &&& final(self).undo_edits() == remembered(
                        old(self).undo_edits(),
                        (EditView::Replace {
                            position: start as nat,
                            old_text: text.subrange(start, end),
                            new_text: trimmed_end(new_text@),
                        }),
                    )
                    &&& final(self).redo_edits() == Seq::<EditView>::empty()
                    &&& final(self).modified()
                }
                &&& !found ==> {
                    &&& final(self).text() == text
                    &&& final(self).undo_edits() == old(self).undo_edits()
                    &&& final(self).redo_edits() == old(self).redo_edits()
                    &&& final(self).modified() == old(self).modified()
                }
            }),
    {
        let total_lines = rope_len_lines(&self.rope);
        if line_idx >= total_lines {
            return false;
        }
        let total = rope_len_chars(&self.rope);
        let start_char = rope_line_to_char(&self.rope, line_idx);
        let line = chars_of(rope_line(&self.rope, line_idx).as_str());
        let line_len = line.len();
        let content = if line_len >= 2 && line[line_len - 2] == '\r' && line[line_len - 1] == '\n' {
            line_len - 2
        } else if line_len >= 1 && (line[line_len - 1] == '\n' || line[line_len - 1] == '\r') {
            line_len - 1
        } else {
            line_len
        };
        assert(start_char + content <= total);
        let end_char = start_char + content;
        let old_text = rope_slice(&self.rope, start_char, end_char);
        let new_chars = chars_of(new_text);
        let mut keep: usize = new_chars.len();
        assert(new_chars@.take(keep as int) =~= new_chars@);
        while keep > 0 && (new_chars[keep - 1] == '\n' || new_chars[keep - 1] == '\r')
            invariant
                keep <= new_chars@.len(),
                trimmed_len(new_chars@) == trimmed_len(new_chars@.take(keep as int)),
            decreases keep,
        {
            assert(new_chars@.take(keep as int).drop_last() =~= new_chars@.take(keep - 1));
            keep = keep - 1;
        }
        let clean = string_of(vstd::slice::slice_subrange(new_chars.as_slice(), 0, keep));
        assert(clean@ == trimmed_end(new_text@));
        if start_char < end_char {
            rope_remove(&mut self.rope, start_char, end_char);
        }
        if keep > 0 {
            rope_insert(&mut self.rope, start_char, clean.as_str());
        }
        assert(self.text() =~= spliced(
            old(self).text(),
            start_char as int,
            end_char as int,
            clean@,
        ));
        self.push_undo(
            EditOperation::Replace { position: start_char, old_text, new_text: clean },
        );
        self.clear_redo();
        self.is_modified = true;
        true
    }
}

} // verus!
