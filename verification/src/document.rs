//! The rows of a file, edited and searched by cursor position.

use crate::grapheme::{graphemes, well_cut};
use crate::highlighting::Highlighter;
use crate::lines::{
    file_bytes, file_text, lemma_file_text_in_bytes, lemma_lines_are_one_line,
    lemma_lines_of_file_text, lemma_one_line_joined, lines_of, one_line, plain_line, split_lines,
};
use crate::row::{
    found_in, is_first_match, is_last_match, lemma_edits_keep_one_line, lemma_find_absent,
    lemma_found_backward_is_last_match, lemma_found_forward_is_first_match, part_keeps_clusters,
    text_deleted, text_head, text_inserted, text_tail, Row,
};
use crate::search::occurs_at;
use crate::Position;
use crate::SearchDirection;
use vstd::prelude::*;
use vstd::utf8::encode_utf8;

verus! {

/// The texts of `rows`, in order.
pub open spec fn texts(rows: Seq<Row>) -> Seq<Seq<char>> {
    rows.map_values(|row: Row| row@)
}

/// The rows after a line break is put in at column `x` of row `y`: a new
/// empty last row where `y` is the number of rows; else row `y` cut before
/// cluster `x`, with what was cut off as the row after it.
pub open spec fn with_line_break(rows: Seq<Seq<char>>, x: int, y: int) -> Seq<Seq<char>> {
    if y == rows.len() {
        rows.push(Seq::empty())
    } else if 0 <= y < rows.len() {
        rows.update(y, text_head(rows[y], x)).insert(y + 1, text_tail(rows[y], x))
    } else {
        rows
    }
}

/// The rows after `c` is put in at column `x` of row `y`. Beyond the row
/// after the last nothing happens. A line feed breaks the line. Any other
/// character becomes a new last row where `y` is the number of rows, and
/// goes into row `y` otherwise.
pub open spec fn with_inserted(rows: Seq<Seq<char>>, x: int, y: int, c: char) -> Seq<Seq<char>> {
    if y < 0 || y > rows.len() {
        rows
    } else if c == '\n' {
        with_line_break(rows, x, y)
    } else if y == rows.len() {
        rows.push(seq![c])
    } else {
        rows.update(y, text_inserted(rows[y], x, c))
    }
}

/// The rows after a deletion at column `x` of row `y`. Beyond the last row
/// nothing happens. At the end of a row that is not the last, the next row
/// is joined to it. Otherwise cluster `x` leaves row `y`.
pub open spec fn with_deleted(rows: Seq<Seq<char>>, x: int, y: int) -> Seq<Seq<char>> {
    if y < 0 || y >= rows.len() {
        rows
    } else if joins_next(rows, x, y) {
        rows.update(y, rows[y] + rows[y + 1]).remove(y + 1)
    } else {
        rows.update(y, text_deleted(rows[y], x))
    }
}

/// The column from which row `row` is searched in a search that began at
/// column `x` of row `y`: `x` in row `y` itself, the start of a later row in
/// a forward search, the end of an earlier row in a backward search.
pub open spec fn search_column(
    rows: Seq<Seq<char>>,
    x: int,
    y: int,
    row: int,
    direction: SearchDirection,
) -> int {
    if row == y {
        x
    } else if direction == SearchDirection::Forward {
        0
    } else {
        graphemes(rows[row]).len() as int
    }
}

/// What a search that began at column `x` of row `y` finds in row `row`.
pub open spec fn found_in_row(
    rows: Seq<Seq<char>>,
    query: Seq<char>,
    x: int,
    y: int,
    row: int,
    direction: SearchDirection,
) -> Option<int> {
    found_in(rows[row], query, search_column(rows, x, y, row, direction), direction)
}

/// Row `row` lies on the way of a search that began in row `y`: at or
/// below row `y` in a forward search, at or above it in a backward search.
pub open spec fn on_the_way(
    rows: Seq<Seq<char>>,
    y: int,
    row: int,
    direction: SearchDirection,
) -> bool {
    if direction == SearchDirection::Forward {
        0 <= y <= row < rows.len()
    } else {
        0 <= row <= y < rows.len()
    }
}

/// Row `row` is passed before row `target` is reached.
pub open spec fn passed_before(row: int, target: int, direction: SearchDirection) -> bool {
    if direction == SearchDirection::Forward {
        row < target
    } else {
        target < row
    }
}

/// A search that began at column `x` of row `y` ends at column `hit_x` of
/// row `hit_y`: that is the first row on the way in which something is
/// found, and the column is the one found there.
pub open spec fn is_found_at(
    rows: Seq<Seq<char>>,
    query: Seq<char>,
    x: int,
    y: int,
    direction: SearchDirection,
    hit_x: int,
    hit_y: int,
) -> bool {
    &&& on_the_way(rows, y, hit_y, direction)
    &&& found_in_row(rows, query, x, y, hit_y, direction) == Some(hit_x)
    &&& forall|row: int|
        on_the_way(rows, y, row, direction) && passed_before(row, hit_y, direction) ==> (
        #[trigger] found_in_row(rows, query, x, y, row, direction)) is None
}

/// Where a search for `query` that begins at column `x` of row `y` ends,
/// as column and row, if it finds anything. Rows are searched one after the
/// other, without wrapping round at either end of the document.
pub open spec fn document_found(
    rows: Seq<Seq<char>>,
    query: Seq<char>,
    x: int,
    y: int,
    direction: SearchDirection,
) -> Option<(int, int)> {
    if exists|hit_x: int, hit_y: int| is_found_at(rows, query, x, y, direction, hit_x, hit_y) {
        Some(choose|hit_x: int, hit_y: int| is_found_at(rows, query, x, y, direction, hit_x, hit_y))
    } else {
        None
    }
}

/// `after` is `before` with rows `from..old_to` given way to rows
/// `from..new_to`, each of which `highlighter` has annotated anew; every
/// other row is as it was, annotations and all.
pub open spec fn rows_replaced<H: Highlighter>(
    before: Seq<Row>,
    after: Seq<Row>,
    from: int,
    old_to: int,
    new_to: int,
    highlighter: &H,
) -> bool {
    &&& 0 <= from <= old_to <= before.len()
    &&& from <= new_to <= after.len()
    &&& after.len() - new_to == before.len() - old_to
    &&& forall|i: int| 0 <= i < from ==> after[i] == before[i]
    &&& forall|i: int| new_to <= i < after.len() ==> after[i] == before[i - new_to + old_to]
    &&& forall|i: int|
        from <= i < new_to ==> (#[trigger] after[i]).annotated_by(highlighter, None::<&str>)
}

/// Every row of `rows` carries what `highlighter` answers about it and `word`.
pub open spec fn all_annotated<H: Highlighter>(
    rows: Seq<Row>,
    highlighter: &H,
    word: Option<&str>,
) -> bool {
    forall|i: int| 0 <= i < rows.len() ==> (#[trigger] rows[i]).annotated_by(highlighter, word)
}

/// Whether a deletion at column `x` of row `y` joins row `y + 1` to row `y`.
pub open spec fn joins_next(rows: Seq<Seq<char>>, x: int, y: int) -> bool {
    0 <= y && y + 1 < rows.len() && x == graphemes(rows[y]).len()
}

/// What is to be written where a document is saved.
pub struct FileImage {
    /// The file to create, or to empty where there is one.
    pub file_name: String,
    /// The text to write to it.
    pub contents: String,
}

/// An ordered sequence of rows with the file they belong to, a flag that
/// tells whether they were changed since they were last saved, and the
/// highlighter for the kind of file.
pub struct Document<H: Highlighter> {
    rows: Vec<Row>,
    pub file_name: Option<String>,
    dirty: bool,
    highlighter: H,
}

impl<H: Highlighter> View for Document<H> {
    type V = Seq<Seq<char>>;

    open spec fn view(&self) -> Seq<Seq<char>> {
        texts(self.lines())
    }
}

impl<H: Highlighter + Default> Default for Document<H> {
    /// An empty document that belongs to no file, with the highlighter that
    /// its type has by default.
    fn default() -> (document: Self)
        ensures
            document.wf(),
            document@ == Seq::<Seq<char>>::empty(),
            document.path() is None,
            !document.changed(),
            call_ensures(H::default, (), document.hook()),
    {
        Document::new(H::default())
    }
}

impl<H: Highlighter> Document<H> {
    /// The rows of the document.
    pub closed spec fn lines(&self) -> Seq<Row> {
        self.rows@
    }

    /// Whether the document was changed since it was opened or saved.
    pub closed spec fn changed(&self) -> bool {
        self.dirty
    }

    /// The name of the file that the document belongs to, if it has one.
    pub closed spec fn path(&self) -> Option<Seq<char>> {
        match self.file_name {
            Some(name) => Some(name@),
            None => None,
        }
    }

    /// The highlighter that annotates the rows of the document.
    pub closed spec fn hook(&self) -> H {
        self.highlighter
    }

    /// Every row is well formed and holds no line feed.
    pub open spec fn wf(&self) -> bool {
        forall|i: int|
            0 <= i < self.lines().len() ==> (#[trigger] self.lines()[i]).wf() && one_line(
                self.lines()[i]@,
            )
    }

    /// An empty document that belongs to no file.
    pub fn new(highlighter: H) -> (document: Self)
        ensures
            document.wf(),
            document@ == Seq::<Seq<char>>::empty(),
            document.path() is None,
            !document.changed(),
            document.hook() == highlighter,
    {
        let document = Document { rows: Vec::new(), file_name: None, dirty: false, highlighter };
        document
    }

    /// Opens the document of the file `file_name`, whose text, as it was
    /// read, is `contents`: one row for each line, annotated by
    /// `highlighter`.
    pub fn open(file_name: &str, contents: &str, highlighter: H) -> (document: Self)
        ensures
            document.wf(),
            document@ == lines_of(contents@),
            document.path() == Some(file_name@),
            !document.changed(),
            document.hook() == highlighter,
            all_annotated(document.lines(), &highlighter, None),
    {
        let lines = split_lines(contents);
        let mut rows: Vec<Row> = Vec::new();
        let mut i: usize = 0;
        proof {
            lemma_lines_are_one_line(contents@);
            assert forall|j: int| 0 <= j < lines.len() implies one_line(#[trigger] lines@[j]@) by {
                assert(lines.deep_view()[j] == lines@[j]@);
            }
        }
        while i < lines.len()
            invariant
                i <= lines.len(),
                rows@.len() == i,
                forall|j: int| 0 <= j < i ==> (#[trigger] rows@[j]).wf() && rows@[j]@ == lines@[j]@,
                forall|j: int| 0 <= j < lines.len() ==> one_line(#[trigger] lines@[j]@),
                all_annotated(rows@, &highlighter, None),
            decreases lines.len() - i,
        {
            let mut row = Row::from(lines[i].as_str());
            row.highlight(&highlighter, None);
            rows.push(row);
            i += 1;
        }
        let document = Document {
            rows,
            file_name: Some(String::from_str(file_name)),
            dirty: false,
            highlighter,
        };
        document
    }

    /// The name of the kind of file, as the highlighter gives it.
    pub fn file_type(&self) -> (name: String)
        ensures
            call_ensures(H::name, (&self.hook(),), name),
    {
        self.highlighter.name()
    }

    /// The row at `index`, if there is one.
    pub fn row(&self, index: usize) -> (row: Option<&Row>)
        ensures
            match row {
                Some(row) => index < self.lines().len() && *row == self.lines()[index as int],
                None => index >= self.lines().len(),
            },
    {
        if index < self.rows.len() {
            Some(&self.rows[index])
        } else {
            None
        }
    }

    /// Whether the document holds no row.
    pub fn is_empty(&self) -> (empty: bool)
        ensures
            empty == (self@.len() == 0),
    {
        self.rows.is_empty()
    }

    /// The number of rows.
    pub fn len(&self) -> (n: usize)
        ensures
            n == self@.len(),
    {
        self.rows.len()
    }

    /// Breaks the line at `at`.
    fn insert_newline(&mut self, at: &Position)
        requires
            old(self).wf(),
            at.y <= old(self)@.len(),
        ensures
            final(self).wf(),
            final(self)@ == with_line_break(old(self)@, at.x as int, at.y as int),
            final(self).changed() == old(self).changed(),
            final(self).path() == old(self).path(),
            final(self).hook() == old(self).hook(),
            rows_replaced(
                old(self).lines(),
                final(self).lines(),
                at.y as int,
                if at.y < old(self)@.len() {
                    at.y + 1
                } else {
                    at.y as int
                },
                if at.y < old(self)@.len() {
                    at.y + 2
                } else {
                    at.y + 1
                },
                &final(self).hook(),
            ),
    {
        if at.y == self.rows.len() {
            let mut row = Row::default();
            row.highlight(&self.highlighter, None);
            self.rows.push(row);
            return ;
        }
        proof {
            lemma_edits_keep_one_line(self.rows@[at.y as int]@, at.x as int, '\n');
        }
        let mut new_row = self.rows[at.y].split(at.x);
        self.rows[at.y].highlight(&self.highlighter, None);
        new_row.highlight(&self.highlighter, None);
        self.rows.insert(at.y + 1, new_row);
    }

    /// Puts `c` in at `at`; a line feed breaks the line there. Nothing
    /// happens where `at` lies beyond the row after the last. The rows that
    /// the edit touches are annotated anew.
    pub fn insert(&mut self, at: &Position, c: char)
        requires
            old(self).wf(),
        ensures
            final(self).wf(),
            final(self)@ == with_inserted(old(self)@, at.x as int, at.y as int, c),
            final(self).changed() == (old(self).changed() || at.y <= old(self)@.len()),
            final(self).path() == old(self).path(),
            final(self).hook() == old(self).hook(),
            at.y > old(self)@.len() ==> final(self).lines() == old(self).lines(),
            at.y <= old(self)@.len() ==> rows_replaced(
                old(self).lines(),
                final(self).lines(),
                at.y as int,
                if at.y < old(self)@.len() {
                    at.y + 1
                } else {
                    at.y as int
                },
                if c == '\n' && at.y < old(self)@.len() {
                    at.y + 2
                } else {
                    at.y + 1
                },
                &final(self).hook(),
            ),
    {
        if at.y > self.len() {
            return ;
        }
        self.dirty = true;
        if c == '\n' {
            self.insert_newline(at);
            return ;
        }
        if at.y == self.len() {
            let mut row = Row::default();
            proof {
                lemma_edits_keep_one_line(row@, 0, c);
            }
            row.insert(0, c);
            row.highlight(&self.highlighter, None);
            self.rows.push(row);
        } else {
            proof {
                lemma_edits_keep_one_line(self.rows@[at.y as int]@, at.x as int, c);
            }
            self.rows[at.y].insert(at.x, c);
            self.rows[at.y].highlight(&self.highlighter, None);
        }
    }

    /// Deletes at `at`: at the end of a row that is not the last, the row
    /// below is joined to it; elsewhere the cluster at `at` goes. Nothing
    /// happens where `at` lies beyond the last row. The row that the edit
    /// touches is annotated anew.
    pub fn delete(&mut self, at: &Position)
        requires
            old(self).wf(),
        ensures
            final(self).wf(),
            final(self)@ == with_deleted(old(self)@, at.x as int, at.y as int),
            final(self).changed() == (old(self).changed() || at.y < old(self)@.len()),
            final(self).path() == old(self).path(),
            final(self).hook() == old(self).hook(),
            at.y >= old(self)@.len() ==> final(self).lines() == old(self).lines(),
            at.y < old(self)@.len() ==> rows_replaced(
                old(self).lines(),
                final(self).lines(),
                at.y as int,
                if joins_next(old(self)@, at.x as int, at.y as int) {
                    at.y + 2
                } else {
                    at.y + 1
                },
                at.y + 1,
                &final(self).hook(),
            ),
    {
        let len = self.len();
        if at.y >= len {
            return ;
        }
        self.dirty = true;
        if at.x == self.rows[at.y].len() && at.y < len - 1 {
            proof {
                lemma_one_line_joined(self.rows@[at.y as int]@, self.rows@[at.y + 1]@);
            }
            let next_row = self.rows.remove(at.y + 1);
            self.rows[at.y].append(&next_row);
            self.rows[at.y].highlight(&self.highlighter, None);
        } else {
            proof {
                lemma_edits_keep_one_line(self.rows@[at.y as int]@, at.x as int, ' ');
            }
            self.rows[at.y].delete(at.x);
            self.rows[at.y].highlight(&self.highlighter, None);
        }
    }

    /// Annotates every row anew, with `word` as the word that is looked for.
    pub fn highlight(&mut self, word: Option<&str>)
        requires
            old(self).wf(),
        ensures
            final(self).wf(),
            final(self)@ == old(self)@,
            final(self).changed() == old(self).changed(),
            final(self).path() == old(self).path(),
            final(self).hook() == old(self).hook(),
            all_annotated(final(self).lines(), &final(self).hook(), word),
    {
        let mut i: usize = 0;
        while i < self.rows.len()
            invariant
                self.wf(),
                self@ == old(self)@,
                self.changed() == old(self).changed(),
                self.path() == old(self).path(),
                self.hook() == old(self).hook(),
                i <= self.lines().len(),
                forall|j: int|
                    0 <= j < i ==> (#[trigger] self.lines()[j]).annotated_by(&self.hook(), word),
            decreases self.rows.len() - i,
        {
            self.rows[i].highlight(&self.highlighter, word);
            i += 1;
        }
    }

    /// Looks for `query` from `at` on, row after row towards the end of
    /// the document or towards its start, and gives the position at which
    /// it was found.
    pub fn find(&self, query: &str, at: &Position, direction: SearchDirection) -> (found: Option<
        Position,
    >)
        requires
            self.wf(),
        ensures
            match found {
                Some(hit) => document_found(self@, query@, at.x as int, at.y as int, direction)
                    == Some((hit.x as int, hit.y as int)),
                None => document_found(self@, query@, at.x as int, at.y as int, direction) is None,
            },
    {
        let ghost x = at.x as int;
        let ghost y = at.y as int;
        if at.y >= self.rows.len() {
            proof {
                lemma_no_row_no_end(self@, query@, x, y, direction);
            }
            return None;
        }
        let mut position = Position { x: at.x, y: at.y };
        loop
            invariant
                self.wf(),
                x == at.x,
                y == at.y,
                on_the_way(self@, y, position.y as int, direction),
                position.x == search_column(self@, x, y, position.y as int, direction),
                forall|row: int|
                    on_the_way(self@, y, row, direction) && passed_before(
                        row,
                        position.y as int,
                        direction,
                    ) ==> (#[trigger] found_in_row(self@, query@, x, y, row, direction)) is None,
            decreases
                    if direction == SearchDirection::Forward {
                        self.rows.len() - position.y
                    } else {
                        position.y as int
                    },
        {
            let row = &self.rows[position.y];
            let in_row = row.find(query, position.x, direction);
            if let Some(column) = in_row {
                position.x = column;
                proof {
                    lemma_document_found_is(
                        self@,
                        query@,
                        x,
                        y,
                        direction,
                        column as int,
                        position.y as int,
                    );
                }
                return Some(position);
            }
            if direction == SearchDirection::Forward {
                if position.y + 1 == self.rows.len() {
                    proof {
                        lemma_no_row_no_end(self@, query@, x, y, direction);
                    }
                    return None;
                }
                position.y = position.y + 1;
                position.x = 0;
            } else {
                if position.y == 0 {
                    proof {
                        lemma_no_row_no_end(self@, query@, x, y, direction);
                    }
                    return None;
                }
                position.y = position.y - 1;
                position.x = self.rows[position.y].len();
            }
        }
    }

    /// The text of the file that holds the document: each row followed by
    /// one line feed. In UTF-8 that is the bytes of each row followed by the
    /// one byte of a line feed.
    pub fn text(&self) -> (text: String)
        ensures
            text@ == file_text(self@),
            encode_utf8(text@) == file_bytes(self@),
    {
        let ghost ended = |line: Seq<char>| line + seq!['\n'];
        let mut text = String::new();
        let mut i: usize = 0;
        while i < self.rows.len()
            invariant
                i <= self.rows.len(),
                ended == |line: Seq<char>| line + seq!['\n'],
                text@ == self@.take(i as int).map_values(ended).flatten(),
            decreases self.rows.len() - i,
        {
            proof {
                assert(self@.take(i + 1).map_values(ended) =~= self@.take(i as int).map_values(
                    ended,
                ).push(self@[i as int] + seq!['\n']));
                self@.take(i as int).map_values(ended).lemma_flatten_push(
                    self@[i as int] + seq!['\n'],
                );
            }
            text.append(self.rows[i].as_str());
            text.push('\n');
            i += 1;
        }
        assert(self@.take(i as int) =~= self@);
        proof {
            lemma_file_text_in_bytes(self@);
        }
        text
    }

    /// What saving the document takes: the file it belongs to and the text
    /// to write there. A document that belongs to no file is not written.
    pub fn save(&self) -> (image: Option<FileImage>)
        ensures
            match image {
                Some(image) => {
                    &&& self.path() == Some(image.file_name@)
                    &&& image.contents@ == file_text(self@)
                    &&& encode_utf8(image.contents@) == file_bytes(self@)
                },
                None => self.path() is None,
            },
    {
        match &self.file_name {
            Some(file_name) => Some(
                FileImage { file_name: file_name.clone(), contents: self.text() },
            ),
            None => None,
        }
    }

    /// Records that the document was written to its file: the rows are
    /// annotated anew by `highlighter`, which takes the place of the one
    /// that the document had, and the document counts as unchanged.
    pub fn saved(&mut self, highlighter: H)
        requires
            old(self).wf(),
        ensures
            final(self).wf(),
            final(self)@ == old(self)@,
            !final(self).changed(),
            final(self).path() == old(self).path(),
            final(self).hook() == highlighter,
            all_annotated(final(self).lines(), &highlighter, None),
    {
        self.highlighter = highlighter;
        assert(self.lines() == old(self).lines());
        self.highlight(None);
        self.dirty = false;
    }

    /// Whether the document was changed since it was opened or saved.
    pub fn is_dirty(&self) -> (dirty: bool)
        ensures
            dirty == self.changed(),
    {
        self.dirty
    }
}

/// A place at which a search ends is the place at which it ends.
pub proof fn lemma_document_found_is(
    rows: Seq<Seq<char>>,
    query: Seq<char>,
    x: int,
    y: int,
    direction: SearchDirection,
    hit_x: int,
    hit_y: int,
)
    requires
        is_found_at(rows, query, x, y, direction, hit_x, hit_y),
    ensures
        document_found(rows, query, x, y, direction) == Some((hit_x, hit_y)),
{
}

/// A search that finds nothing in any row on its way ends nowhere.
pub proof fn lemma_no_row_no_end(
    rows: Seq<Seq<char>>,
    query: Seq<char>,
    x: int,
    y: int,
    direction: SearchDirection,
)
    requires
        forall|row: int|
            on_the_way(rows, y, row, direction) ==> (#[trigger] found_in_row(
                rows,
                query,
                x,
                y,
                row,
                direction,
            )) is None,
    ensures
        document_found(rows, query, x, y, direction) is None,
{
    if exists|hit_x: int, hit_y: int| is_found_at(rows, query, x, y, direction, hit_x, hit_y) {
        let hit = choose|hit_x: int, hit_y: int|
            is_found_at(rows, query, x, y, direction, hit_x, hit_y);
    }
}

/// Where something is found in a row on the way, the search ends in that
/// row or in one that is passed before it.
pub proof fn lemma_search_ends(
    rows: Seq<Seq<char>>,
    query: Seq<char>,
    x: int,
    y: int,
    direction: SearchDirection,
    row: int,
)
    requires
        on_the_way(rows, y, row, direction),
        found_in_row(rows, query, x, y, row, direction) is Some,
    ensures
        document_found(rows, query, x, y, direction) is Some,
    decreases
            if direction == SearchDirection::Forward {
                row - y
            } else {
                y - row
            },
{
    if exists|earlier: int|
        on_the_way(rows, y, earlier, direction) && passed_before(earlier, row, direction) && (
        #[trigger] found_in_row(rows, query, x, y, earlier, direction)) is Some {
        let earlier = choose|earlier: int|
            on_the_way(rows, y, earlier, direction) && passed_before(earlier, row, direction) && (
            #[trigger] found_in_row(rows, query, x, y, earlier, direction)) is Some;
        lemma_search_ends(rows, query, x, y, direction, earlier);
    } else {
        let hit_x = found_in_row(rows, query, x, y, row, direction)->0;
        lemma_document_found_is(rows, query, x, y, direction, hit_x, row);
    }
}

/// What `document_found` gives is the place at which the search ends: the
/// first row on the way in which something is found, and the column found
/// there. It gives nothing only where nothing is found in any row on the
/// way.
pub proof fn lemma_document_found(
    rows: Seq<Seq<char>>,
    query: Seq<char>,
    x: int,
    y: int,
    direction: SearchDirection,
)
    ensures
        match document_found(rows, query, x, y, direction) {
            Some((hit_x, hit_y)) => is_found_at(rows, query, x, y, direction, hit_x, hit_y),
            None => forall|row: int|
                on_the_way(rows, y, row, direction) ==> (#[trigger] found_in_row(
                    rows,
                    query,
                    x,
                    y,
                    row,
                    direction,
                )) is None,
        },
{
    if document_found(rows, query, x, y, direction) is None {
        assert forall|row: int| on_the_way(rows, y, row, direction) implies (
        #[trigger] found_in_row(rows, query, x, y, row, direction)) is None by {
            if found_in_row(rows, query, x, y, row, direction) is Some {
                lemma_search_ends(rows, query, x, y, direction, row);
            }
        }
    }
}

/// A query that stands in no row is not found, wherever the search begins
/// and in whichever direction it goes.
pub proof fn lemma_document_find_absent(
    rows: Seq<Seq<char>>,
    query: Seq<char>,
    x: int,
    y: int,
    direction: SearchDirection,
)
    requires
        forall|row: int| 0 <= row < rows.len() ==> well_cut(#[trigger] rows[row]),
        forall|row: int, offset: int| 0 <= row < rows.len() ==> !occurs_at(rows[row], query, offset),
    ensures
        document_found(rows, query, x, y, direction) is None,
{
    if document_found(rows, query, x, y, direction) is Some {
        lemma_document_found(rows, query, x, y, direction);
        let hit = document_found(rows, query, x, y, direction)->0;
        lemma_find_absent(
            rows[hit.1],
            query,
            search_column(rows, x, y, hit.1, direction),
            direction,
        );
    }
}

/// Where a forward search ends, the query stands: at the first cluster of
/// that row, counted from where the row is searched, at which it stands; and
/// in the rows between the start of the search and that row nothing was
/// found. This holds where the searched part of that row keeps the clusters
/// it has in the row.
pub proof fn lemma_document_find_forward_first_match(
    rows: Seq<Seq<char>>,
    query: Seq<char>,
    x: int,
    y: int,
    hit_x: int,
    hit_y: int,
)
    requires
        forall|row: int| 0 <= row < rows.len() ==> well_cut(#[trigger] rows[row]),
        document_found(rows, query, x, y, SearchDirection::Forward) == Some((hit_x, hit_y)),
        part_keeps_clusters(
            rows[hit_y],
            search_column(rows, x, y, hit_y, SearchDirection::Forward),
            SearchDirection::Forward,
        ),
    ensures
        0 <= y <= hit_y < rows.len(),
        is_first_match(
            rows[hit_y],
            query,
            search_column(rows, x, y, hit_y, SearchDirection::Forward),
            hit_x,
        ),
        forall|row: int|
            y <= row < hit_y ==> (#[trigger] found_in_row(
                rows,
                query,
                x,
                y,
                row,
                SearchDirection::Forward,
            )) is None,
{
    lemma_document_found(rows, query, x, y, SearchDirection::Forward);
    lemma_found_forward_is_first_match(
        rows[hit_y],
        query,
        search_column(rows, x, y, hit_y, SearchDirection::Forward),
        hit_x,
    );
}

/// Where a backward search ends, the query stands: at the last cluster of
/// that row at which it stands and ends before the place from which the
/// row is searched; and in the rows between that row and the start of the
/// search nothing was found. This holds where the searched part of that row
/// keeps the clusters it has in the row.
pub proof fn lemma_document_find_backward_last_match(
    rows: Seq<Seq<char>>,
    query: Seq<char>,
    x: int,
    y: int,
    hit_x: int,
    hit_y: int,
)
    requires
        forall|row: int| 0 <= row < rows.len() ==> well_cut(#[trigger] rows[row]),
        document_found(rows, query, x, y, SearchDirection::Backward) == Some((hit_x, hit_y)),
        part_keeps_clusters(
            rows[hit_y],
            search_column(rows, x, y, hit_y, SearchDirection::Backward),
            SearchDirection::Backward,
        ),
    ensures
        0 <= hit_y <= y < rows.len(),
        is_last_match(
            rows[hit_y],
            query,
            search_column(rows, x, y, hit_y, SearchDirection::Backward),
            hit_x,
        ),
        forall|row: int|
            hit_y < row <= y ==> (#[trigger] found_in_row(
                rows,
                query,
                x,
                y,
                row,
                SearchDirection::Backward,
            )) is None,
{
    lemma_document_found(rows, query, x, y, SearchDirection::Backward);
    lemma_found_backward_is_last_match(
        rows[hit_y],
        query,
        search_column(rows, x, y, hit_y, SearchDirection::Backward),
        hit_x,
    );
}

/// A document whose rows do not end in a carriage return is read back from
/// its file as it was written: the lines of the text of the file are the
/// rows.
pub proof fn lemma_saved_text_reopens<H: Highlighter>(document: Document<H>)
    requires
        document.wf(),
        forall|i: int|
            0 <= i < document@.len() ==> (#[trigger] document@[i]).len() > 0 ==> document@[i].last()
                != '\r',
    ensures
        lines_of(file_text(document@)) == document@,
{
    lemma_lines_of_file_text(document@);
}

} // verus!
