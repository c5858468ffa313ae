//! The document buffer: committed text, the line being typed, and the width
//! at which the text is wrapped.

use crate::wrap::{chunk_views, last_chunk_text, lemma_last_chunk, wrap, wrap_spec, LineChunk};
use vstd::prelude::*;

verus! {

/// The wrap width of a new buffer.
pub const DEFAULT_WIDTH: u16 = 60;

/// The buffer of one editing session.
pub struct Editor {
    /// Where the document is kept, if it is kept anywhere.
    pub path: Option<String>,
    /// What was typed since the text was last folded or broken.
    pub input: Vec<char>,
    /// The document so far, line feeds included.
    pub text: Vec<char>,
    /// The number of characters that a row holds.
    pub line_width: u16,
}

/// A key press, as far as the editor tells keys apart.
#[derive(Clone, Copy, Debug)]
pub enum Key {
    /// A printable character.
    Char(char),
    Backspace,
    Enter,
    Escape,
    /// Any other key, and any event that is no key press.
    Other,
}

/// The mathematical value of an [`Editor`]'s contents.
pub ghost struct Buffer {
    pub committed: Seq<char>,
    pub pending: Seq<char>,
    pub width: int,
}

impl Buffer {
    /// The whole document: the pending input follows the committed text.
    pub open spec fn document(self) -> Seq<char> {
        self.committed + self.pending
    }

    /// The width is positive and the pending input does not fill a row.
    pub open spec fn wf(self) -> bool {
        0 <= self.pending.len() < self.width
    }

    /// All of the pending input moves to the end of the committed text, with
    /// no line feed between them.
    pub open spec fn folded(self) -> Buffer {
        Buffer { committed: self.committed + self.pending, pending: Seq::empty(), width: self.width }
    }

    /// One character is typed: it joins the pending input, and the input folds
    /// once it fills a row.
    pub open spec fn typed(self, c: char) -> Buffer {
        let grown = Buffer { pending: self.pending.push(c), ..self };
        if grown.pending.len() >= self.width {
            grown.folded()
        } else {
            grown
        }
    }

    /// The characters of `cs` are typed one after the other.
    pub open spec fn typed_all(self, cs: Seq<char>) -> Buffer
        decreases cs.len(),
    {
        if cs.len() == 0 {
            self
        } else {
            self.typed_all(cs.drop_last()).typed(cs.last())
        }
    }

    /// The line is committed: the pending input and one line feed join the
    /// committed text.
    pub open spec fn broken(self) -> Buffer {
        Buffer {
            committed: (self.committed + self.pending).push('\n'),
            pending: Seq::empty(),
            width: self.width,
        }
    }

    /// Whether the end of the committed text can be taken back into the input:
    /// nothing is pending, the text is not empty and does not end in a line
    /// feed, and its last chunk does not fill a row. That chunk is then the very
    /// end of the text.
    pub open spec fn reloads(self) -> bool {
        &&& self.pending.len() == 0
        &&& self.committed.len() > 0
        &&& self.committed.last() != '\n'
        &&& last_chunk_text(self.committed, self.width).len() < self.width
    }

    /// Where the end of the committed text can be taken back, its last chunk
    /// moves from the end of the text into the pending input. Otherwise nothing
    /// changes.
    pub open spec fn reloaded(self) -> Buffer {
        let last = last_chunk_text(self.committed, self.width);
        if self.reloads() {
            Buffer {
                committed: self.committed.take(self.committed.len() - last.len()),
                pending: last,
                width: self.width,
            }
        } else {
            self
        }
    }

    /// What a key press makes of the buffer: a character is typed, backspace
    /// deletes, enter commits the line, escape folds the input for storing, and
    /// any other key does nothing.
    pub open spec fn pressed(self, key: Key) -> Buffer {
        match key {
            Key::Char(c) => self.typed(c),
            Key::Backspace => self.erased(),
            Key::Enter => self.broken(),
            Key::Escape => self.folded(),
            Key::Other => self,
        }
    }

    /// What a sequence of key presses makes of the buffer.
    pub open spec fn pressed_all(self, keys: Seq<Key>) -> Buffer
        decreases keys.len(),
    {
        if keys.len() == 0 {
            self
        } else {
            self.pressed_all(keys.drop_last()).pressed(keys.last())
        }
    }

    /// One character is deleted: the last of the pending input, or, where
    /// there is none, the last of the committed text, after which the buffer is
    /// reloaded.
    pub open spec fn erased(self) -> Buffer {
        if self.pending.len() > 0 {
            Buffer { pending: self.pending.drop_last(), ..self }
        } else if self.committed.len() > 0 {
            (Buffer { committed: self.committed.drop_last(), ..self }).reloaded()
        } else {
            self
        }
    }
}

/// Typing fewer characters than a row holds into an empty input line leaves
/// them all pending and the committed text as it was.
pub proof fn lemma_row_grows(b: Buffer, cs: Seq<char>)
    requires
        b.pending.len() == 0,
        cs.len() < b.width,
    ensures
        b.typed_all(cs) == (Buffer { pending: cs, ..b }),
    decreases cs.len(),
{
    if cs.len() == 0 {
        assert(b.pending =~= cs);
    } else {
        lemma_row_grows(b, cs.drop_last());
        assert(cs.drop_last().push(cs.last()) =~= cs);
    }
}

/// Typing exactly as many characters as a row holds into an empty input line
/// folds them: the input line is empty again, and the committed text has grown
/// by those characters, with no line feed.
pub proof fn lemma_full_row_folds(b: Buffer, cs: Seq<char>)
    requires
        b.pending.len() == 0,
        b.width > 0,
        cs.len() == b.width,
    ensures
        b.typed_all(cs).pending == Seq::<char>::empty(),
        b.typed_all(cs).committed == b.committed + cs,
        b.typed_all(cs).width == b.width,
{
    lemma_row_grows(b, cs.drop_last());
    assert(cs.drop_last().push(cs.last()) =~= cs);
}

/// Every typed character is added at the end of the document, whether the
/// input folds or not.
pub proof fn lemma_typing_extends_document(b: Buffer, c: char)
    ensures
        b.typed(c).document() == b.document().push(c),
        b.width > 0 ==> b.typed(c).wf(),
{
    assert(b.typed(c).document() =~= b.document().push(c));
}

/// Committing a line adds one line feed at the end of the document and leaves
/// no input pending.
pub proof fn lemma_break_extends_document(b: Buffer)
    ensures
        b.broken().document() == b.document().push('\n'),
        b.broken().pending.len() == 0,
        b.broken().committed == (b.committed + b.pending).push('\n'),
{
    assert(b.broken().document() =~= b.document().push('\n'));
}

/// Folding keeps the document, and folding again changes nothing.
pub proof fn lemma_fold_keeps_document(b: Buffer)
    ensures
        b.folded().document() == b.document(),
        b.folded().folded() == b.folded(),
{
    assert(b.folded().document() =~= b.document());
    assert(b.folded().committed + b.folded().pending =~= b.folded().committed);
}

/// Reloading never changes the document: what becomes the input is the very
/// end of the committed text. The width stays, and so does validity.
pub proof fn lemma_reload_keeps_document(b: Buffer)
    requires
        b.width > 0,
    ensures
        b.reloaded().document() == b.document(),
        b.reloaded().width == b.width,
        b.wf() ==> b.reloaded().wf(),
{
    if b.reloads() {
        lemma_last_chunk(b.committed, b.width);
        assert(b.reloaded().document() =~= b.committed);
        assert(b.document() =~= b.committed);
    }
}

/// Deleting takes exactly the last character off a document that has one,
/// whether that character was pending or committed. An empty buffer stays as
/// it is.
pub proof fn lemma_erase_shortens_document(b: Buffer)
    requires
        b.width > 0,
    ensures
        b.document().len() == 0 ==> b.erased() == b,
        b.document().len() > 0 ==> b.erased().document() == b.document().drop_last(),
        b.erased().width == b.width,
        b.wf() ==> b.erased().wf(),
{
    if b.pending.len() > 0 {
        assert(b.erased().document() =~= b.document().drop_last());
    } else if b.committed.len() > 0 {
        let cut = Buffer { committed: b.committed.drop_last(), ..b };
        lemma_reload_keeps_document(cut);
        assert(cut.document() =~= b.document().drop_last());
    }
}

/// Deleting directly after typing a character gives the document back as it
/// was before the character.
pub proof fn lemma_erase_undoes_typing(b: Buffer, c: char)
    requires
        b.width > 0,
    ensures
        b.typed(c).erased().document() == b.document(),
{
    lemma_typing_extends_document(b, c);
    lemma_erase_shortens_document(b.typed(c));
    assert(b.document().push(c).drop_last() =~= b.document());
}

/// What a sequence of key presses leaves of a document: a character and a
/// line feed are added at its end, backspace takes its last character off, if
/// it has one, and the other keys leave it as it is.
pub open spec fn document_after(doc: Seq<char>, keys: Seq<Key>) -> Seq<char>
    decreases keys.len(),
{
    if keys.len() == 0 {
        doc
    } else {
        let before = document_after(doc, keys.drop_last());
        match keys.last() {
            Key::Char(c) => before.push(c),
            Key::Enter => before.push('\n'),
            Key::Backspace => if before.len() > 0 {
                before.drop_last()
            } else {
                before
            },
            Key::Escape => before,
            Key::Other => before,
        }
    }
}

/// Whatever keys are pressed, in whatever order, the committed text followed
/// by the pending input is the document that those keys wrote.
pub proof fn lemma_keys_write_the_document(b: Buffer, keys: Seq<Key>)
    requires
        b.width > 0,
    ensures
        b.pressed_all(keys).document() == document_after(b.document(), keys),
        b.pressed_all(keys).width == b.width,
    decreases keys.len(),
{
    if keys.len() > 0 {
        lemma_keys_write_the_document(b, keys.drop_last());
        let before = b.pressed_all(keys.drop_last());
        lemma_erase_shortens_document(before);
        lemma_fold_keeps_document(before);
        lemma_break_extends_document(before);
        match keys.last() {
            Key::Char(c) => {
                lemma_typing_extends_document(before, c);
            },
            _ => {},
        }
    }
}

/// Whatever keys are pressed, in whatever order, the pending input never
/// fills a row, and the width stays what it was.
pub proof fn lemma_keys_keep_buffer_valid(b: Buffer, keys: Seq<Key>)
    requires
        b.wf(),
    ensures
        b.pressed_all(keys).wf(),
        b.pressed_all(keys).width == b.width,
    decreases keys.len(),
{
    if keys.len() > 0 {
        lemma_keys_keep_buffer_valid(b, keys.drop_last());
        let before = b.pressed_all(keys.drop_last());
        lemma_erase_shortens_document(before);
    }
}

impl View for Editor {
    type V = Buffer;

    open spec fn view(&self) -> Buffer {
        Buffer { committed: self.text@, pending: self.input@, width: self.line_width as int }
    }
}

impl Editor {
    /// Opens a buffer on a document that was read from `path`, or on an empty
    /// one, at the default width. The end of the text becomes the pending input
    /// where it can be taken back; the document is the text as it was given.
    pub fn new(path: Option<String>, text: Vec<char>) -> (editor: Editor)
        ensures
            editor.path == path,
            editor@ == (Buffer {
                committed: text@,
                pending: Seq::empty(),
                width: DEFAULT_WIDTH as int,
            }).reloaded(),
            editor@.document() == text@,
            editor@.wf(),
    {
        assert(text@ + Seq::<char>::empty() =~= text@);
        let mut editor = Editor { path, input: Vec::new(), text, line_width: DEFAULT_WIDTH };
        editor.reload();
        editor
    }

    /// Takes a typed character into the pending input. Once the input holds
    /// a full row it is folded into the text.
    pub fn type_char(&mut self, c: char)
        ensures
            final(self)@ == old(self)@.typed(c),
            final(self).path == old(self).path,
            final(self)@.document() == old(self)@.document().push(c),
            old(self).line_width > 0 ==> final(self)@.wf(),
    {
        self.input.push(c);
        if self.input.len() >= self.line_width as usize {
            self.append();
        }
        assert(final(self)@.document() =~= old(self)@.document().push(c));
    }

    /// Deletes the last character of the pending input. Where there is none,
    /// deletes the last character of the text and reloads, so that the end of
    /// the text can be edited again. On an empty buffer nothing changes.
    pub fn backspace(&mut self)
        requires
            old(self).line_width > 0,
        ensures
            final(self)@ == old(self)@.erased(),
            final(self).path == old(self).path,
            old(self)@.document().len() == 0 ==> final(self)@ == old(self)@,
            old(self)@.document().len() > 0 ==> final(self)@.document() == old(
                self,
            )@.document().drop_last(),
            old(self)@.wf() ==> final(self)@.wf(),
    {
        proof {
            lemma_erase_shortens_document(old(self)@);
        }
        match self.input.pop() {
            Some(_) => {},
            None => {
                if self.text.len() > 0 {
                    self.text.pop();
                    assert(self.text@ == old(self).text@.drop_last());
                    self.reload();
                }
            },
        }
    }

    /// Folds the pending input into the text.
    fn append(&mut self)
        ensures
            final(self)@ == old(self)@.folded(),
            final(self).path == old(self).path,
    {
        self.text.append(&mut self.input);
    }

    /// Commits the line: the pending input moves into the text, followed by
    /// one line feed.
    pub fn appendln(&mut self)
        ensures
            final(self)@ == old(self)@.broken(),
            final(self).path == old(self).path,
            final(self)@.pending.len() == 0,
            final(self)@.document() == old(self)@.document().push('\n'),
    {
        self.text.append(&mut self.input);
        self.text.push('\n');
        assert(final(self)@.document() =~= old(self)@.document().push('\n'));
    }

    /// Makes the text ready to be stored: pending input is folded into it.
    /// The text to store is then `self.text`.
    pub fn save(&mut self)
        ensures
            final(self)@ == old(self)@.folded(),
            final(self).path == old(self).path,
            final(self)@.document() == old(self)@.document(),
    {
        if self.input.len() > 0 {
            self.append();
        } else {
            assert(self.text@ + self.input@ =~= self.text@);
            assert(self.input@ =~= Seq::<char>::empty());
        }
        assert(final(self)@.document() =~= old(self)@.document());
    }

    /// Acts on one key press and says whether the session is over. Escape
    /// ends it, with the text made ready to be stored.
    pub fn press(&mut self, key: Key) -> (done: bool)
        requires
            old(self).line_width > 0,
        ensures
            final(self)@ == old(self)@.pressed(key),
            final(self).path == old(self).path,
            done == (key is Escape),
            old(self)@.wf() ==> final(self)@.wf(),
    {
        match key {
            Key::Char(c) => {
                self.type_char(c);
                false
            },
            Key::Backspace => {
                self.backspace();
                false
            },
            Key::Enter => {
                self.appendln();
                false
            },
            Key::Escape => {
                self.save();
                true
            },
            Key::Other => false,
        }
    }

    /// Whether the text ends in a line feed.
    pub fn newline(&self) -> (ends: bool)
        ensures
            ends == (self.text@.len() > 0 && self.text@.last() == '\n'),
    {
        let n: usize = self.text.len();
        n > 0 && self.text[n - 1] == '\n'
    }

    /// Takes the end of the text back into the input, so that it can be
    /// edited again: where nothing is pending and the text does not end in a
    /// line feed, its last chunk moves into the pending input, unless that chunk
    /// fills a row. The document is never changed by this.
    pub fn reload(&mut self)
        requires
            old(self).line_width > 0,
        ensures
            final(self)@ == old(self)@.reloaded(),
            final(self).path == old(self).path,
            final(self)@.document() == old(self)@.document(),
            old(self)@.wf() ==> final(self)@.wf(),
    {
        proof {
            lemma_reload_keeps_document(old(self)@);
        }
        if self.input.len() > 0 || self.text.len() == 0 || self.newline() {
            return ;
        }
        let mut lines = self.lines();
        let ghost chunks = lines@;
        let last_line: Vec<char> = match lines.pop() {
            Some(chunk) => chunk.text,
            None => Vec::new(),
        };
        proof {
            lemma_last_chunk(self.text@, self.line_width as int);
            if chunks.len() > 0 {
                assert(chunk_views(chunks).last() == chunks.last()@);
            }
            assert(last_line@ =~= last_chunk_text(self.text@, self.line_width as int));
        }
        if last_line.len() < self.line_width as usize {
            let keep: usize = self.text.len() - last_line.len();
            self.text.truncate(keep);
            self.input = last_line;
        }
    }

    /// The chunks of the text at the buffer's width.
    pub fn lines(&self) -> (out: Vec<LineChunk>)
        requires
            self.line_width > 0,
        ensures
            chunk_views(out@) == wrap_spec(self.text@, self.line_width as int),
    {
        wrap(&self.text, self.line_width)
    }
}

} // verus!
