//! The line editor: a buffer of grapheme clusters with a cursor
//! between them, and the word- and character-level operations the
//! input box supports.
//!
//! Holding the text as its clusters keeps every cursor position on a
//! cluster boundary by construction; all operations are pure index
//! arithmetic, with the cluster split itself named in `unicode`.

use vstd::prelude::*;

use crate::strutil::char_to_string;
use crate::unicode::{concat_views, graphemes_of, grapheme_split, lemma_concat_split};

verus! {

/// Whether `c` is blank for the purpose of word motion.
pub open spec fn is_ws_char(c: char) -> bool {
    c == ' ' || c == '\t' || c == '\n' || c == '\r'
}

/// A word cell holds no blank character.
pub open spec fn is_word_cell(g: Seq<char>) -> bool {
    forall|i: int| 0 <= i < g.len() ==> !is_ws_char(#[trigger] g[i])
}

/// The first position at or after `i` that holds a word cell, or the
/// end.
pub open spec fn skip_blanks(cs: Seq<Seq<char>>, i: int) -> int
    decreases cs.len() - i,
{
    if !(0 <= i < cs.len()) {
        i
    } else if is_word_cell(cs[i]) {
        i
    } else {
        skip_blanks(cs, i + 1)
    }
}

/// The first position at or after `i` that does not hold a word cell,
/// or the end.
pub open spec fn skip_word(cs: Seq<Seq<char>>, i: int) -> int
    decreases cs.len() - i,
{
    if !(0 <= i < cs.len()) {
        i
    } else if !is_word_cell(cs[i]) {
        i
    } else {
        skip_word(cs, i + 1)
    }
}

/// Where the cursor lands moving one word forward: past the blanks,
/// then past the word.
pub open spec fn next_word_stop(cs: Seq<Seq<char>>, cur: int) -> int {
    skip_word(cs, skip_blanks(cs, cur))
}

/// The first position at or before `i` with a word cell just before
/// it, or the start, scanning left over blanks.
pub open spec fn skip_blanks_back(cs: Seq<Seq<char>>, i: int) -> int
    decreases i,
{
    if !(0 < i <= cs.len()) {
        i
    } else if is_word_cell(cs[i - 1]) {
        i
    } else {
        skip_blanks_back(cs, i - 1)
    }
}

/// The first position at or before `i` with a non-word cell just
/// before it, or the start, scanning left over word cells.
pub open spec fn skip_word_back(cs: Seq<Seq<char>>, i: int) -> int
    decreases i,
{
    if !(0 < i <= cs.len()) {
        i
    } else if !is_word_cell(cs[i - 1]) {
        i
    } else {
        skip_word_back(cs, i - 1)
    }
}

/// Where the cursor lands moving one word backward: the start of the
/// word left of the cursor.
pub open spec fn prev_word_start(cs: Seq<Seq<char>>, cur: int) -> int {
    skip_word_back(cs, skip_blanks_back(cs, cur))
}

/// The editable input line: its text as grapheme clusters, and the
/// cursor as an index between clusters.
pub struct Editor {
    cells: Vec<String>,
    cursor: usize,
}

/// What transposing the clusters around the cursor does: nothing at
/// the start or on a short buffer; at the end, the last two clusters
/// swap; elsewhere the clusters around the cursor swap and the cursor
/// advances.
pub open spec fn transpose_chars_model(cs: Seq<Seq<char>>, cur: int) -> (Seq<Seq<char>>, int) {
    if cur == 0 || cs.len() < 2 {
        (cs, cur)
    } else if cur == cs.len() {
        (cs.update(cs.len() - 2, cs[cs.len() - 1]).update(cs.len() - 1, cs[cs.len() - 2]), cur)
    } else {
        (cs.update(cur - 1, cs[cur]).update(cur, cs[cur - 1]), cur + 1)
    }
}

impl Editor {
    /// The grapheme clusters of the buffer.
    pub closed spec fn cells(&self) -> Seq<Seq<char>> {
        self.cells@.map_values(|g: String| g@)
    }

    /// The cursor, as an index between clusters.
    pub closed spec fn cursor_at(&self) -> int {
        self.cursor as int
    }

    /// The cursor lies between clusters and every cluster is
    /// non-empty.
    pub open spec fn wf(&self) -> bool {
        &&& 0 <= self.cursor_at() <= self.cells().len()
        &&& forall|i: int| 0 <= i < self.cells().len() ==> (#[trigger] self.cells()[i]).len() > 0
    }

    /// The buffer's text: the concatenation of its clusters.
    pub open spec fn text_view(&self) -> Seq<char> {
        concat_views(self.cells())
    }

    /// The cursor's position in characters; it always lies on a
    /// cluster boundary, splitting the text into whole clusters
    /// before and after it.
    pub open spec fn cursor_chars(&self) -> int {
        concat_views(self.cells().take(self.cursor_at())).len() as int
    }

    /// The cursor bound, in characters: the text splits at the cursor
    /// into the clusters before it and the clusters after it, so the
    /// character position lies between zero and the text's length.
    pub proof fn lemma_cursor_in_text(&self)
        requires
            self.wf(),
        ensures
            0 <= self.cursor_chars() <= self.text_view().len(),
            self.text_view() == concat_views(self.cells().take(self.cursor_at())) + concat_views(
                self.cells().skip(self.cursor_at()),
            ),
    {
        lemma_concat_split(self.cells(), self.cursor_at());
    }

    /// A buffer whose text is empty holds no clusters.
    pub proof fn lemma_empty_text_no_cells(&self)
        requires
            self.wf(),
            self.text_view().len() == 0,
        ensures
            self.cells().len() == 0,
    {
        if self.cells().len() > 0 {
            assert(self.text_view() == self.cells()[0] + concat_views(
                self.cells().drop_first(),
            ));
            assert(self.cells()[0].len() > 0);
        }
    }

    /// An empty buffer with the cursor at the start.
    pub fn new() -> (r: Editor)
        ensures
            r.cells() =~= Seq::<Seq<char>>::empty(),
            r.cursor_at() == 0,
            r.wf(),
    {
        let e = Editor { cells: Vec::new(), cursor: 0 };
        proof {
            assert(e.cells() =~= Seq::<Seq<char>>::empty());
        }
        e
    }

    /// An empty buffer; the capacity is only a sizing hint.
    pub fn with_capacity(capacity: usize) -> (r: Editor)
        ensures
            r.cells() =~= Seq::<Seq<char>>::empty(),
            r.cursor_at() == 0,
            r.wf(),
    {
        let e = Editor { cells: Vec::with_capacity(capacity), cursor: 0 };
        proof {
            assert(e.cells() =~= Seq::<Seq<char>>::empty());
        }
        e
    }

    /// Replaces the whole buffer and places the cursor, clamped to
    /// the new length.
    pub fn update(&mut self, text: &str, pos: usize)
        ensures
            final(self).cells() == graphemes_of(text@),
            final(self).cursor_at() == if pos as int <= graphemes_of(text@).len() {
                pos as int
            } else {
                graphemes_of(text@).len() as int
            },
            final(self).wf(),
            final(self).text_view() == text@,
    {
        self.cells = grapheme_split(text);
        let n = self.cells.len();
        self.cursor = if pos <= n {
            pos
        } else {
            n
        };
        proof {
            assert(self.cells() =~= graphemes_of(text@));
        }
    }

    /// Inserts the clusters of `text` before cluster `at`; the cursor
    /// does not move.
    pub fn insert_str(&mut self, at: usize, text: &str)
        requires
            old(self).wf(),
            at <= old(self).cells().len(),
        ensures
            final(self).cells() == old(self).cells().take(at as int) + graphemes_of(text@) + old(
                self,
            ).cells().skip(at as int),
            final(self).cursor_at() == old(self).cursor_at(),
            final(self).wf(),
    {
        let mut tail = self.cells.split_off(at);
        let mut mid = grapheme_split(text);
        self.cells.append(&mut mid);
        self.cells.append(&mut tail);
        proof {
            assert(self.cells() =~= old(self).cells().take(at as int) + graphemes_of(text@) + old(
                self,
            ).cells().skip(at as int));
        }
    }

    /// Inserts one character as a cluster of its own at the cursor;
    /// the cursor moves past it.
    pub fn insert(&mut self, c: char)
        requires
            old(self).wf(),
        ensures
            final(self).cells() == old(self).cells().insert(old(self).cursor_at(), seq![c]),
            final(self).cursor_at() == old(self).cursor_at() + 1,
            final(self).wf(),
    {
        let cell = char_to_string(c);
        self.cells.insert(self.cursor, cell);
        let n = self.cells.len();
        proof {
            assert(self.cursor < n);
        }
        self.cursor = self.cursor + 1;
        proof {
            assert(self.cells() =~= old(self).cells().insert(old(self).cursor_at(), seq![c]));
        }
    }

    /// Moves the cursor forward by `n` clusters, stopping at the end.
    pub fn move_forward(&mut self, n: usize)
        requires
            old(self).wf(),
        ensures
            final(self).cells() == old(self).cells(),
            final(self).cursor_at() == if old(self).cursor_at() + n <= old(self).cells().len() {
                old(self).cursor_at() + n
            } else {
                old(self).cells().len() as int
            },
            final(self).wf(),
    {
        let len = self.cells.len();
        if n <= len - self.cursor {
            self.cursor = self.cursor + n;
        } else {
            self.cursor = len;
        }
    }

    /// Moves the cursor backward by `n` clusters, stopping at the
    /// start.
    pub fn move_backward(&mut self, n: usize)
        requires
            old(self).wf(),
        ensures
            final(self).cells() == old(self).cells(),
            final(self).cursor_at() == if n <= old(self).cursor_at() {
                old(self).cursor_at() - n
            } else {
                0
            },
            final(self).wf(),
    {
        if n <= self.cursor {
            self.cursor = self.cursor - n;
        } else {
            self.cursor = 0;
        }
    }

    /// Moves the cursor to the start of the buffer.
    pub fn move_home(&mut self)
        requires
            old(self).wf(),
        ensures
            final(self).cells() == old(self).cells(),
            final(self).cursor_at() == 0,
            final(self).wf(),
    {
        self.cursor = 0;
    }

    /// Moves the cursor to the end of the buffer.
    pub fn move_end(&mut self)
        requires
            old(self).wf(),
        ensures
            final(self).cells() == old(self).cells(),
            final(self).cursor_at() == old(self).cells().len(),
            final(self).wf(),
    {
        self.cursor = self.cells.len();
    }

    /// Whether cluster `i` is a word cell.
    fn word_cell_at(&self, i: usize) -> (r: bool)
        requires
            i < self.cells().len(),
        ensures
            r == is_word_cell(self.cells()[i as int]),
    {
        let g: &String = &self.cells[i];
        let n = g.as_str().unicode_len();
        let mut j: usize = 0;
        while j < n
            invariant
                n == g@.len(),
                0 <= j <= n,
                g@ == self.cells()[i as int],
                forall|q: int| 0 <= q < j ==> !is_ws_char(#[trigger] g@[q]),
            decreases n - j,
        {
            let c = g.as_str().get_char(j);
            if c == ' ' || c == '\t' || c == '\n' || c == '\r' {
                return false;
            }
            j += 1;
        }
        true
    }

    /// The landing place of a forward word motion from `from`.
    fn scan_word_forward(&self, from: usize) -> (r: usize)
        requires
            from <= self.cells().len(),
        ensures
            r == next_word_stop(self.cells(), from as int),
            from <= r <= self.cells().len(),
    {
        let ghost cs = self.cells();
        let len = self.cells.len();
        let mut i = from;
        while i < len && !self.word_cell_at(i)
            invariant
                cs == self.cells(),
                len == cs.len(),
                from <= i <= len,
                skip_blanks(cs, from as int) == skip_blanks(cs, i as int),
            decreases len - i,
        {
            i += 1;
        }
        proof {
            assert(skip_blanks(cs, i as int) == i);
        }
        let mut j = i;
        while j < len && self.word_cell_at(j)
            invariant
                cs == self.cells(),
                len == cs.len(),
                i <= j <= len,
                skip_word(cs, i as int) == skip_word(cs, j as int),
            decreases len - j,
        {
            j += 1;
        }
        proof {
            assert(skip_word(cs, j as int) == j);
        }
        j
    }

    /// The landing place of a backward word motion from `from`.
    fn scan_word_backward(&self, from: usize) -> (r: usize)
        requires
            from <= self.cells().len(),
        ensures
            r == prev_word_start(self.cells(), from as int),
            r <= from,
    {
        let ghost cs = self.cells();
        let mut i = from;
        while i > 0 && !self.word_cell_at(i - 1)
            invariant
                cs == self.cells(),
                from <= cs.len(),
                0 <= i <= from,
                skip_blanks_back(cs, from as int) == skip_blanks_back(cs, i as int),
            decreases i,
        {
            i -= 1;
        }
        proof {
            assert(skip_blanks_back(cs, i as int) == i);
        }
        let mut j = i;
        while j > 0 && self.word_cell_at(j - 1)
            invariant
                cs == self.cells(),
                i <= cs.len(),
                0 <= j <= i,
                skip_word_back(cs, i as int) == skip_word_back(cs, j as int),
            decreases j,
        {
            j -= 1;
        }
        proof {
            assert(skip_word_back(cs, j as int) == j);
        }
        j
    }

    /// Moves the cursor one word forward, emacs style: over the
    /// blanks, then over the word.
    pub fn move_to_next_word(&mut self)
        requires
            old(self).wf(),
        ensures
            final(self).cells() == old(self).cells(),
            final(self).cursor_at() == next_word_stop(old(self).cells(), old(self).cursor_at()),
            final(self).wf(),
    {
        self.cursor = self.scan_word_forward(self.cursor);
    }

    /// Moves the cursor to the start of the word before it.
    pub fn move_to_prev_word(&mut self)
        requires
            old(self).wf(),
        ensures
            final(self).cells() == old(self).cells(),
            final(self).cursor_at() == prev_word_start(old(self).cells(), old(self).cursor_at()),
            final(self).wf(),
    {
        self.cursor = self.scan_word_backward(self.cursor);
    }

    /// Deletes from the start of the word before the cursor up to the
    /// cursor.
    pub fn delete_prev_word(&mut self)
        requires
            old(self).wf(),
        ensures
            final(self).cells() == old(self).cells().take(
                prev_word_start(old(self).cells(), old(self).cursor_at()),
            ) + old(self).cells().skip(old(self).cursor_at()),
            final(self).cursor_at() == prev_word_start(old(self).cells(), old(self).cursor_at()),
            final(self).wf(),
    {
        let p = self.scan_word_backward(self.cursor);
        let mut tail = self.cells.split_off(self.cursor);
        self.cells.truncate(p);
        self.cells.append(&mut tail);
        self.cursor = p;
        proof {
            assert(self.cells() =~= old(self).cells().take(
                prev_word_start(old(self).cells(), old(self).cursor_at()),
            ) + old(self).cells().skip(old(self).cursor_at()));
        }
    }

    /// Exchanges the cluster before the cursor with the one at it;
    /// at the end of the line the last two clusters swap instead.
    pub fn transpose_chars(&mut self)
        requires
            old(self).wf(),
        ensures
            final(self).cells() == transpose_chars_model(
                old(self).cells(),
                old(self).cursor_at(),
            ).0,
            final(self).cursor_at() == transpose_chars_model(
                old(self).cells(),
                old(self).cursor_at(),
            ).1,
            final(self).wf(),
    {
        let len = self.cells.len();
        if self.cursor == 0 || len < 2 {
            return ;
        }
        if self.cursor == len {
            let a = self.cells.remove(len - 2);
            self.cells.insert(len - 1, a);
            proof {
                let cs = old(self).cells();
                assert(self.cells() =~= cs.update(cs.len() - 2, cs[cs.len() - 1]).update(
                    cs.len() - 1,
                    cs[cs.len() - 2],
                ));
            }
        } else {
            let a = self.cells.remove(self.cursor - 1);
            self.cells.insert(self.cursor, a);
            self.cursor = self.cursor + 1;
            proof {
                let cs = old(self).cells();
                let cur = old(self).cursor_at();
                assert(self.cells() =~= cs.update(cur - 1, cs[cur]).update(cur, cs[cur - 1]));
            }
        }
    }

    /// Drags the word before the cursor over the next word; the
    /// cursor lands after the dragged word. Nothing happens without
    /// two words around the cursor.
    pub fn transpose_words(&mut self)
        requires
            old(self).wf(),
        ensures
            final(self).wf(),
            final(self).cells() == transpose_words_model(old(self).cells(), old(self).cursor_at()).0,
            final(self).cursor_at() == transpose_words_model(
                old(self).cells(),
                old(self).cursor_at(),
            ).1,
    {
        let ghost cs = self.cells();
        let w2_end = self.scan_word_forward(self.cursor);
        let w2_beg = self.scan_word_backward(w2_end);
        let w1_beg = self.scan_word_backward(w2_beg);
        let w1_end = self.scan_word_forward(w1_beg);
        if w1_beg == w2_beg || w2_beg < w1_end {
            return ;
        }
        let mut after = self.cells.split_off(w2_end);
        let mut w2 = self.cells.split_off(w2_beg);
        let mut mid = self.cells.split_off(w1_end);
        let mut w1 = self.cells.split_off(w1_beg);
        self.cells.append(&mut w2);
        self.cells.append(&mut mid);
        self.cells.append(&mut w1);
        self.cells.append(&mut after);
        self.cursor = w2_end;
        proof {
            assert(self.cells() =~= cs.take(w1_beg as int) + cs.subrange(
                w2_beg as int,
                w2_end as int,
            ) + cs.subrange(w1_end as int, w2_beg as int) + cs.subrange(
                w1_beg as int,
                w1_end as int,
            ) + cs.skip(w2_end as int));
        }
    }

    /// Deletes everything from the cursor to the end of the line.
    pub fn kill_line(&mut self)
        requires
            old(self).wf(),
        ensures
            final(self).cells() == old(self).cells().take(old(self).cursor_at()),
            final(self).cursor_at() == old(self).cursor_at(),
            final(self).wf(),
    {
        self.cells.truncate(self.cursor);
        proof {
            assert(self.cells() =~= old(self).cells().take(old(self).cursor_at()));
        }
    }

    /// Deletes everything from the start of the line to the cursor.
    pub fn discard_line(&mut self)
        requires
            old(self).wf(),
        ensures
            final(self).cells() == old(self).cells().skip(old(self).cursor_at()),
            final(self).cursor_at() == 0,
            final(self).wf(),
    {
        let tail = self.cells.split_off(self.cursor);
        self.cells = tail;
        self.cursor = 0;
        proof {
            assert(self.cells() =~= old(self).cells().skip(old(self).cursor_at()));
        }
    }

    /// Deletes up to `n` clusters at the cursor.
    pub fn delete(&mut self, n: usize)
        requires
            old(self).wf(),
        ensures
            final(self).cells() == old(self).cells().take(old(self).cursor_at()) + old(
                self,
            ).cells().skip(
                if old(self).cursor_at() + n <= old(self).cells().len() {
                    old(self).cursor_at() + n
                } else {
                    old(self).cells().len() as int
                },
            ),
            final(self).cursor_at() == old(self).cursor_at(),
            final(self).wf(),
    {
        let len = self.cells.len();
        let end = if n <= len - self.cursor {
            self.cursor + n
        } else {
            len
        };
        let mut tail = self.cells.split_off(end);
        self.cells.truncate(self.cursor);
        self.cells.append(&mut tail);
        proof {
            assert(self.cells() =~= old(self).cells().take(old(self).cursor_at()) + old(
                self,
            ).cells().skip(
                if old(self).cursor_at() + n <= old(self).cells().len() {
                    old(self).cursor_at() + n
                } else {
                    old(self).cells().len() as int
                },
            ));
        }
    }

    /// Deletes up to `n` clusters before the cursor.
    pub fn backspace(&mut self, n: usize)
        requires
            old(self).wf(),
        ensures
            final(self).cells() == old(self).cells().take(
                if n <= old(self).cursor_at() {
                    old(self).cursor_at() - n
                } else {
                    0
                },
            ) + old(self).cells().skip(old(self).cursor_at()),
            final(self).cursor_at() == if n <= old(self).cursor_at() {
                old(self).cursor_at() - n
            } else {
                0
            },
            final(self).wf(),
    {
        let d = if n <= self.cursor {
            n
        } else {
            self.cursor
        };
        let mut tail = self.cells.split_off(self.cursor);
        self.cells.truncate(self.cursor - d);
        self.cells.append(&mut tail);
        self.cursor = self.cursor - d;
        proof {
            assert(self.cells() =~= old(self).cells().take(
                if n <= old(self).cursor_at() {
                    old(self).cursor_at() - n
                } else {
                    0
                },
            ) + old(self).cells().skip(old(self).cursor_at()));
        }
    }

    /// The buffer's text as one string.
    pub fn as_string(&self) -> (r: String)
        ensures
            r@ == self.text_view(),
    {
        let n = self.cells.len();
        let mut out = String::new();
        let mut i: usize = 0;
        proof {
            assert(self.cells().take(0) =~= Seq::<Seq<char>>::empty());
        }
        while i < n
            invariant
                n == self.cells@.len(),
                0 <= i <= n,
                out@ == concat_views(self.cells().take(i as int)),
            decreases n - i,
        {
            out.append(self.cells[i].as_str());
            i += 1;
            proof {
                lemma_concat_split(self.cells().take(i as int), i - 1);
                assert(self.cells().take(i as int).take(i - 1) =~= self.cells().take(i - 1));
                let one = self.cells().take(i as int).skip(i - 1);
                assert(one.len() == 1);
                assert(one[0] == self.cells()[i - 1]);
                assert(one.drop_first() =~= Seq::<Seq<char>>::empty());
                assert(concat_views(one) == one[0] + concat_views(one.drop_first()));
                assert(one[0] + Seq::<char>::empty() =~= one[0]);
            }
        }
        proof {
            assert(self.cells().take(n as int) =~= self.cells());
        }
        out
    }

    /// How many clusters the buffer holds.
    pub fn cell_count(&self) -> (r: usize)
        ensures
            r == self.cells().len(),
    {
        self.cells.len()
    }

    /// The cluster at index `i`.
    pub fn cell_at(&self, i: usize) -> (r: &String)
        requires
            i < self.cells().len(),
        ensures
            r@ == self.cells()[i as int],
    {
        &self.cells[i]
    }

    /// The cursor's index between clusters.
    pub fn pos(&self) -> (r: usize)
        ensures
            r == self.cursor_at(),
    {
        self.cursor
    }

    /// Whether the buffer holds no text.
    pub fn is_empty(&self) -> (r: bool)
        requires
            self.wf(),
        ensures
            r == (self.cells().len() == 0),
            r == (self.text_view().len() == 0),
    {
        proof {
            if self.cells().len() > 0 {
                assert(self.text_view() == self.cells()[0] + concat_views(
                    self.cells().drop_first(),
                ));
                assert(self.cells()[0].len() > 0);
            }
        }
        self.cells.len() == 0
    }
}

/// What transposing words does: with a word ending at or after the
/// cursor and another word before it, the two words swap, the blanks
/// between them stay, and the cursor lands after the swapped pair;
/// otherwise nothing changes.
pub open spec fn transpose_words_model(cs: Seq<Seq<char>>, cur: int) -> (Seq<Seq<char>>, int) {
    let w2_end = next_word_stop(cs, cur);
    let w2_beg = prev_word_start(cs, w2_end);
    let w1_beg = prev_word_start(cs, w2_beg);
    let w1_end = next_word_stop(cs, w1_beg);
    if w1_beg == w2_beg || w2_beg < w1_end {
        (cs, cur)
    } else {
        (
            cs.take(w1_beg) + cs.subrange(w2_beg, w2_end) + cs.subrange(w1_end, w2_beg)
                + cs.subrange(w1_beg, w1_end) + cs.skip(w2_end),
            w2_end,
        )
    }
}

} // verus!
