//! The table itself: headers and rows of text cells, with their accessors and
//! mutators.
use crate::text::{
    join_chars, join_with, push_char, records_from_lines, records_of, split_chars, split_on,
    strip_cr, ended_lines, terminated_lines, text_lines,
};
use crate::render::{border, border_of, frame_all, framed_all, rendered_rows};
use vstd::prelude::*;

verus! {

/// What a table holds: its headers and its rows, each cell as its characters.
pub struct TableModel {
    pub heads: Seq<Seq<char>>,
    pub rows: Seq<Seq<Seq<char>>>,
}

/// The characters of each string of `s`.
pub open spec fn strs_view(s: Seq<&str>) -> Seq<Seq<char>> {
    s.map_values(|x: &str| x@)
}

/// Whether `i` is the first position of `name` in `heads`.
pub open spec fn is_first_position(heads: Seq<Seq<char>>, name: Seq<char>, i: int) -> bool {
    &&& 0 <= i < heads.len()
    &&& heads[i] == name
    &&& forall|j: int| 0 <= j < i ==> heads[j] != name
}

/// Whether some header is `name`.
pub open spec fn has_header(heads: Seq<Seq<char>>, name: Seq<char>) -> bool {
    exists|i: int| 0 <= i < heads.len() && heads[i] == name
}

/// The cell at `i` of each row, or the empty text for a row too short to have one.
pub open spec fn column_at(rows: Seq<Seq<Seq<char>>>, i: int) -> Seq<Seq<char>> {
    rows.map_values(
        |r: Seq<Seq<char>>|
            if 0 <= i < r.len() {
                r[i]
            } else {
                Seq::<char>::empty()
            },
    )
}

/// A row without its cell at `i`, or the row as it stands if it has none there.
pub open spec fn without_cell(r: Seq<Seq<char>>, i: int) -> Seq<Seq<char>> {
    if 0 <= i < r.len() {
        r.remove(i)
    } else {
        r
    }
}

/// `s` without its last item, or the empty sequence as it stands.
pub open spec fn without_last<A>(s: Seq<A>) -> Seq<A> {
    if s.len() > 0 {
        s.drop_last()
    } else {
        s
    }
}

/// The lines that a table is written as: the headers joined with commas,
/// where there is at least one header, then each row joined with commas.
pub open spec fn table_lines(m: TableModel) -> Seq<Seq<char>> {
    let rows = m.rows.map_values(|r: Seq<Seq<char>>| join_with(r, ','));
    if m.heads.len() > 0 {
        seq![join_with(m.heads, ',')] + rows
    } else {
        rows
    }
}

/// The text that a table is written as: each of its lines ended by a line feed.
pub open spec fn serialized(m: TableModel) -> Seq<char> {
    terminated_lines(table_lines(m))
}

/// The table that `text` holds: its first record gives the headers, the
/// others the rows. `None` where `text` has no non-empty line.
pub open spec fn parsed(text: Seq<char>) -> Option<TableModel> {
    let recs = records_of(text);
    if recs.len() == 0 {
        None
    } else {
        Some(TableModel { heads: recs[0], rows: recs.drop_first() })
    }
}

/// The bordered rendering of a table: a border line, the header line, a
/// border line, then one line for each row; every line ends with a line feed.
pub open spec fn rendered(m: TableModel) -> Seq<char> {
    border(m.heads).push('\n') + framed_all(m.heads).push('\n') + border(m.heads).push('\n')
        + rendered_rows(m.rows)
}

/// Why text could not be read as a table.
#[derive(Debug, PartialEq, Eq, Structural)]
pub enum ParseError {
    /// The text has no non-empty line, so there is no header line.
    EmptyInput,
}

/// A table of text cells: an ordered list of headers and an ordered list of
/// rows. Rows need not have as many cells as there are headers, nor as many
/// as each other.
#[derive(Debug)]
pub struct CsvFile {
    heads: Vec<String>,
    rows: Vec<Vec<String>>,
}

impl View for CsvFile {
    type V = TableModel;

    closed spec fn view(&self) -> TableModel {
        TableModel { heads: self.heads.deep_view(), rows: self.rows.deep_view() }
    }
}

impl Default for CsvFile {
    fn default() -> (r: CsvFile)
        ensures
            r@.heads.len() == 0,
            r@.rows.len() == 0,
    {
        CsvFile::new()
    }
}

impl CsvFile {
    /// An empty table: no headers, no rows.
    pub fn new() -> (r: CsvFile)
        ensures
            r@.heads.len() == 0,
            r@.rows.len() == 0,
    {
        CsvFile { heads: Vec::new(), rows: Vec::new() }
    }

    /// The headers, in order.
    pub fn heads(&self) -> (r: &Vec<String>)
        ensures
            r.deep_view() == self@.heads,
    {
        &self.heads
    }

    /// The first position of the header `name`, or `None` where no header is `name`.
    pub fn head_pos(&self, name: &str) -> (r: Option<usize>)
        ensures
            r is None <==> !has_header(self@.heads, name@),
            r matches Some(i) ==> is_first_position(self@.heads, name@, i as int),
    {
        let target = name.to_owned();
        let mut i: usize = 0;
        while i < self.heads.len()
            invariant
                i <= self.heads.len(),
                target@ == name@,
                forall|j: int| 0 <= j < i ==> self@.heads[j] != name@,
            decreases self.heads.len() - i,
        {
            if self.heads[i] == target {
                assert(self@.heads[i as int] == name@);
                return Some(i);
            }
            i = i + 1;
        }
        None
    }

    /// The rows, in order.
    pub fn rows(&self) -> (r: &Vec<Vec<String>>)
        ensures
            r.deep_view() == self@.rows,
    {
        &self.rows
    }

    /// The column under the header `name`: one cell for each row, the empty
    /// text for a row too short to have one. `None` where no header is `name`.
    pub fn cols(&self, name: &str) -> (r: Option<Vec<String>>)
        ensures
            r is None <==> !has_header(self@.heads, name@),
            r matches Some(c) ==> exists|i: int|
                is_first_position(self@.heads, name@, i) && c.deep_view() == column_at(
                    self@.rows,
                    i,
                ),
    {
        let index = match self.head_pos(name) {
            Some(i) => i,
            None => {
                return None;
            },
        };
        let mut cols: Vec<String> = Vec::new();
        let mut k: usize = 0;
        while k < self.rows.len()
            invariant
                k <= self.rows.len(),
                cols.deep_view() == column_at(self@.rows, index as int).subrange(0, k as int),
            decreases self.rows.len() - k,
        {
            let row = &self.rows[k];
            let data = if index < row.len() {
                row[index].clone()
            } else {
                String::new()
            };
            assert(self@.rows[k as int] == row.deep_view());
            assert(data@ == column_at(self@.rows, index as int)[k as int]);
            let ghost prev = cols.deep_view();
            cols.push(data);
            assert(cols.deep_view() =~= prev.push(data@));
            assert(cols.deep_view() =~= column_at(self@.rows, index as int).subrange(
                0,
                k + 1,
            ));
            k = k + 1;
        }
        assert(column_at(self@.rows, index as int).subrange(0, k as int) =~= column_at(
            self@.rows,
            index as int,
        ));
        Some(cols)
    }

    /// The row at `position`, or `None` past the last row.
    pub fn row(&self, position: usize) -> (r: Option<&Vec<String>>)
        ensures
            r is Some <==> position < self@.rows.len(),
            r matches Some(v) ==> v.deep_view() == self@.rows[position as int],
    {
        if position < self.rows.len() {
            Some(&self.rows[position])
        } else {
            None
        }
    }

    /// The cell at `col` of the row at `row`, or `None` where there is none.
    pub fn cell(&self, row: usize, col: usize) -> (r: Option<&String>)
        ensures
            r is Some <==> row < self@.rows.len() && col < self@.rows[row as int].len(),
            r matches Some(c) ==> c@ == self@.rows[row as int][col as int],
    {
        if row < self.rows.len() && col < self.rows[row].len() {
            Some(&self.rows[row][col])
        } else {
            None
        }
    }
}

impl CsvFile {
    /// Appends the header `name`. Headers need not be unique.
    pub fn push_head(&mut self, name: &str)
        ensures
            final(self)@.heads == old(self)@.heads.push(name@),
            final(self)@.rows == old(self)@.rows,
    {
        let ghost prev = self.heads.deep_view();
        self.heads.push(name.to_owned());
        assert(self.heads.deep_view() =~= prev.push(name@));
    }

    /// Replaces the header at `position` with `name`; does nothing past the
    /// last header.
    pub fn set_head(&mut self, position: usize, name: &str)
        ensures
            final(self)@.heads == if position < old(self)@.heads.len() {
                old(self)@.heads.update(position as int, name@)
            } else {
                old(self)@.heads
            },
            final(self)@.rows == old(self)@.rows,
    {
        if position >= self.heads.len() {
            return;
        }
        let ghost prev = self.heads.deep_view();
        self.heads[position] = name.to_owned();
        assert(self.heads.deep_view() =~= prev.update(position as int, name@));
    }

    /// Inserts the header `name` at `position`, moving the later ones one place on.
    pub fn insert_head(&mut self, position: usize, name: &str)
        requires
            position <= old(self)@.heads.len(),
        ensures
            final(self)@.heads == old(self)@.heads.insert(position as int, name@),
            final(self)@.rows == old(self)@.rows,
    {
        let ghost prev = self.heads.deep_view();
        self.heads.insert(position, name.to_owned());
        assert(self.heads.deep_view() =~= prev.insert(position as int, name@));
    }

    /// Removes the header at `position` and returns it.
    pub fn delete_head(&mut self, position: usize) -> (r: String)
        requires
            position < old(self)@.heads.len(),
        ensures
            r@ == old(self)@.heads[position as int],
            final(self)@.heads == old(self)@.heads.remove(position as int),
            final(self)@.rows == old(self)@.rows,
    {
        let ghost prev = self.heads.deep_view();
        let r = self.heads.remove(position);
        assert(self.heads.deep_view() =~= prev.remove(position as int));
        r
    }

    /// Removes the last header and returns it; `None` where there is none.
    pub fn pop_head(&mut self) -> (r: Option<String>)
        ensures
            r is Some <==> old(self)@.heads.len() > 0,
            r matches Some(h) ==> h@ == old(self)@.heads.last(),
            final(self)@.heads == without_last(old(self)@.heads),
            final(self)@.rows == old(self)@.rows,
    {
        let ghost prev = self.heads.deep_view();
        let r = self.heads.pop();
        assert(self.heads.deep_view() =~= without_last(prev));
        r
    }

    /// Appends `value` to the row at `row`; does nothing past the last row.
    /// Other rows keep their length.
    pub fn push_col(&mut self, row: usize, value: &str)
        ensures
            final(self)@.heads == old(self)@.heads,
            final(self)@.rows == if row < old(self)@.rows.len() {
                old(self)@.rows.update(row as int, old(self)@.rows[row as int].push(value@))
            } else {
                old(self)@.rows
            },
    {
        if row >= self.rows.len() {
            return;
        }
        let ghost prev = self.rows.deep_view();
        let ghost prev_row = self.rows[row as int].deep_view();
        self.rows[row].push(value.to_owned());
        assert(self.rows[row as int].deep_view() =~= prev_row.push(value@));
        assert(self.rows.deep_view() =~= prev.update(row as int, prev_row.push(value@)));
    }

    /// Replaces the cell at `col` of the row at `row` with `value`; does
    /// nothing where there is no such cell.
    pub fn set_col(&mut self, row: usize, col: usize, value: &str)
        ensures
            final(self)@.heads == old(self)@.heads,
            final(self)@.rows == if row < old(self)@.rows.len() && col < old(
                self,
            )@.rows[row as int].len() {
                old(self)@.rows.update(
                    row as int,
                    old(self)@.rows[row as int].update(col as int, value@),
                )
            } else {
                old(self)@.rows
            },
    {
        if row >= self.rows.len() {
            return;
        }
        if col >= self.rows[row].len() {
            return;
        }
        let ghost prev = self.rows.deep_view();
        let ghost prev_row = self.rows[row as int].deep_view();
        self.rows[row][col] = value.to_owned();
        assert(self.rows[row as int].deep_view() =~= prev_row.update(col as int, value@));
        assert(self.rows.deep_view() =~= prev.update(
            row as int,
            prev_row.update(col as int, value@),
        ));
    }

    /// Inserts `value` at `position` of the row at `row`.
    pub fn insert_col(&mut self, row: usize, position: usize, value: &str)
        requires
            row < old(self)@.rows.len(),
            position <= old(self)@.rows[row as int].len(),
        ensures
            final(self)@.heads == old(self)@.heads,
            final(self)@.rows == old(self)@.rows.update(
                row as int,
                old(self)@.rows[row as int].insert(position as int, value@),
            ),
    {
        let ghost prev = self.rows.deep_view();
        let ghost prev_row = self.rows[row as int].deep_view();
        self.rows[row].insert(position, value.to_owned());
        assert(self.rows[row as int].deep_view() =~= prev_row.insert(position as int, value@));
        assert(self.rows.deep_view() =~= prev.update(
            row as int,
            prev_row.insert(position as int, value@),
        ));
    }
}

impl CsvFile {
    /// Removes the header at `position`, and the cell at `position` of every
    /// row that has one; a row too short to have one stays as it is.
    pub fn delete_col(&mut self, position: usize)
        requires
            position < old(self)@.heads.len(),
        ensures
            final(self)@.heads == old(self)@.heads.remove(position as int),
            final(self)@.rows == old(self)@.rows.map_values(
                |r: Seq<Seq<char>>| without_cell(r, position as int),
            ),
    {
        self.delete_head(position);
        let ghost heads = self.heads.deep_view();
        let ghost start = self.rows.deep_view();
        let mut k: usize = 0;
        while k < self.rows.len()
            invariant
                k <= self.rows.len(),
                self.heads.deep_view() == heads,
                self.rows.len() == start.len(),
                forall|j: int|
                    0 <= j < k ==> #[trigger] self.rows.deep_view()[j] == without_cell(
                        start[j],
                        position as int,
                    ),
                forall|j: int| k <= j < start.len() ==> #[trigger] self.rows.deep_view()[j] == start[j],
            decreases self.rows.len() - k,
        {
            let ghost prev = self.rows.deep_view();
            assert(prev[k as int] == start[k as int]);
            assert(prev[k as int].len() == self.rows[k as int].len());
            if position < self.rows[k].len() {
                let ghost prev_row = self.rows[k as int].deep_view();
                self.rows[k].remove(position);
                assert(self.rows[k as int].deep_view() =~= prev_row.remove(position as int));
                assert(self.rows.deep_view() =~= prev.update(
                    k as int,
                    prev_row.remove(position as int),
                ));
            }
            assert(self.rows.deep_view()[k as int] == without_cell(start[k as int], position as int));
            k = k + 1;
        }
        assert(self.rows.deep_view() =~= start.map_values(
            |r: Seq<Seq<char>>| without_cell(r, position as int),
        ));
    }

    /// Removes the last header, if any, and the last cell of every row that
    /// has one.
    pub fn pop_col(&mut self)
        ensures
            final(self)@.heads == without_last(old(self)@.heads),
            final(self)@.rows == old(self)@.rows.map_values(|r: Seq<Seq<char>>| without_last(r)),
    {
        self.pop_head();
        let ghost heads = self.heads.deep_view();
        let ghost start = self.rows.deep_view();
        let mut k: usize = 0;
        while k < self.rows.len()
            invariant
                k <= self.rows.len(),
                self.heads.deep_view() == heads,
                self.rows.len() == start.len(),
                forall|j: int|
                    0 <= j < k ==> #[trigger] self.rows.deep_view()[j] == without_last(start[j]),
                forall|j: int| k <= j < start.len() ==> #[trigger] self.rows.deep_view()[j] == start[j],
            decreases self.rows.len() - k,
        {
            let ghost prev = self.rows.deep_view();
            assert(prev[k as int] == start[k as int]);
            let ghost prev_row = self.rows[k as int].deep_view();
            self.rows[k].pop();
            assert(self.rows[k as int].deep_view() =~= without_last(prev_row));
            assert(self.rows.deep_view() =~= prev.update(k as int, without_last(prev_row)));
            assert(self.rows.deep_view()[k as int] == without_last(start[k as int]));
            k = k + 1;
        }
        assert(self.rows.deep_view() =~= start.map_values(
            |r: Seq<Seq<char>>| without_last(r),
        ));
    }

    /// Appends a row holding a copy of each of `value`.
    pub fn push_row(&mut self, value: &[&str])
        ensures
            final(self)@.heads == old(self)@.heads,
            final(self)@.rows == old(self)@.rows.push(strs_view(value@)),
    {
        let ghost prev = self.rows.deep_view();
        let r = self.row_mapper(value);
        self.rows.push(r);
        assert(self.rows.deep_view() =~= prev.push(strs_view(value@)));
    }

    /// Replaces the row at `position` with a copy of `value`; does nothing
    /// past the last row.
    pub fn set_row(&mut self, position: usize, value: &[&str])
        ensures
            final(self)@.heads == old(self)@.heads,
            final(self)@.rows == if position < old(self)@.rows.len() {
                old(self)@.rows.update(position as int, strs_view(value@))
            } else {
                old(self)@.rows
            },
    {
        if position >= self.rows.len() {
            return;
        }
        let ghost prev = self.rows.deep_view();
        let r = self.row_mapper(value);
        self.rows[position] = r;
        assert(self.rows.deep_view() =~= prev.update(position as int, strs_view(value@)));
    }

    /// Inserts a copy of `value` as the row at `position`, moving the later
    /// rows one place on.
    pub fn insert_row(&mut self, position: usize, value: &[&str])
        requires
            position <= old(self)@.rows.len(),
        ensures
            final(self)@.heads == old(self)@.heads,
            final(self)@.rows == old(self)@.rows.insert(position as int, strs_view(value@)),
    {
        let ghost prev = self.rows.deep_view();
        let r = self.row_mapper(value);
        self.rows.insert(position, r);
        assert(self.rows.deep_view() =~= prev.insert(position as int, strs_view(value@)));
    }

    /// Removes the row at `position` and returns it; `None` past the last row.
    pub fn delete_row(&mut self, position: usize) -> (r: Option<Vec<String>>)
        ensures
            final(self)@.heads == old(self)@.heads,
            r is Some <==> position < old(self)@.rows.len(),
            r matches Some(v) ==> v.deep_view() == old(self)@.rows[position as int],
            final(self)@.rows == if position < old(self)@.rows.len() {
                old(self)@.rows.remove(position as int)
            } else {
                old(self)@.rows
            },
    {
        if position >= self.rows.len() {
            return None;
        }
        let ghost prev = self.rows.deep_view();
        let r = self.rows.remove(position);
        assert(self.rows.deep_view() =~= prev.remove(position as int));
        Some(r)
    }

    /// Removes the last row and returns it; `None` where there are no rows.
    pub fn pop_row(&mut self) -> (r: Option<Vec<String>>)
        ensures
            final(self)@.heads == old(self)@.heads,
            r is Some <==> old(self)@.rows.len() > 0,
            r matches Some(v) ==> v.deep_view() == old(self)@.rows.last(),
            final(self)@.rows == without_last(old(self)@.rows),
    {
        let ghost prev = self.rows.deep_view();
        let r = self.rows.pop();
        assert(self.rows.deep_view() =~= without_last(prev));
        r
    }

    /// A row holding a copy of each of `value`.
    fn row_mapper(&self, value: &[&str]) -> (r: Vec<String>)
        ensures
            r.deep_view() == strs_view(value@),
    {
        let mut r: Vec<String> = Vec::new();
        let mut i: usize = 0;
        while i < value.len()
            invariant
                i <= value.len(),
                r.deep_view() == strs_view(value@).subrange(0, i as int),
            decreases value.len() - i,
        {
            let ghost prev = r.deep_view();
            r.push(value[i].to_owned());
            assert(r.deep_view() =~= prev.push(value@[i as int]@));
            assert(r.deep_view() =~= strs_view(value@).subrange(0, i + 1));
            i = i + 1;
        }
        assert(strs_view(value@).subrange(0, i as int) =~= strs_view(value@));
        r
    }
}

impl CsvFile {
    /// Reads a table from comma-separated text: the first non-empty line
    /// gives the headers, each later non-empty line a row. There is no
    /// quoting: every comma separates two cells.
    pub fn from_text(text: &str) -> (r: Result<CsvFile, ParseError>)
        ensures
            match r {
                Ok(t) => parsed(text@) == Some(t@),
                Err(e) => parsed(text@) is None && e == ParseError::EmptyInput,
            },
    {
        let mut records: Vec<Vec<String>> = Vec::new();
        let mut line = String::new();
        let mut pending_cr = false;
        for c in it: text.chars()
            invariant
                it.seq() == text@,
                records.deep_view() == records_from_lines(
                    ended_lines(text@.subrange(0, it.index() as int)),
                ),
                split_on(text@.subrange(0, it.index() as int), '\n').last() == if pending_cr {
                    line@.push('\r')
                } else {
                    line@
                },
                !pending_cr ==> line@.len() == 0 || line@.last() != '\r',
        {
            let ghost before = text@.subrange(0, it.index() as int);
            let ghost after = text@.subrange(0, it.index() + 1);
            assert(after.drop_last() =~= before);
            assert(after.last() == c);
            proof {
                crate::text::lemma_split_nonempty(before, '\n');
            }
            let ghost pieces = split_on(before, '\n');
            if c == '\n' {
                assert(strip_cr(pieces.last()) == line@) by {
                    if pending_cr {
                        assert(line@.push('\r').drop_last() =~= line@);
                    }
                }
                assert(ended_lines(after) =~= ended_lines(before).push(line@)) by {
                    assert(split_on(after, '\n').drop_last() =~= pieces);
                }
                assert(ended_lines(after).drop_last() =~= ended_lines(before));
                if !line.as_str().is_empty() {
                    let ghost prev = records.deep_view();
                    let rec = split_chars(line.as_str(), ',');
                    records.push(rec);
                    assert(records.deep_view() =~= prev.push(split_on(line@, ',')));
                }
                line = String::new();
                pending_cr = false;
            } else {
                assert(ended_lines(after) =~= ended_lines(before)) by {
                    assert(split_on(after, '\n').drop_last() =~= pieces.drop_last());
                }
                if c == '\r' {
                    if pending_cr {
                        push_char(&mut line, '\r');
                    }
                    pending_cr = true;
                } else {
                    if pending_cr {
                        push_char(&mut line, '\r');
                        pending_cr = false;
                    }
                    push_char(&mut line, c);
                }
                assert(split_on(after, '\n').last() =~= if pending_cr {
                    line@.push('\r')
                } else {
                    line@
                });
            }
        }
        assert(text@.subrange(0, text@.len() as int) =~= text@);
        if pending_cr {
            push_char(&mut line, '\r');
        }
        let ghost lines = text_lines(text@);
        assert(lines.drop_last() =~= ended_lines(text@));
        assert(lines.last() == line@);
        if !line.as_str().is_empty() {
            let ghost prev = records.deep_view();
            let rec = split_chars(line.as_str(), ',');
            records.push(rec);
            assert(records.deep_view() =~= prev.push(split_on(line@, ',')));
        }
        assert(records.deep_view() == records_of(text@));
        if records.len() == 0 {
            return Err(ParseError::EmptyInput);
        }
        let ghost all = records.deep_view();
        let heads = records.remove(0);
        assert(records.deep_view() =~= all.drop_first());
        let t = CsvFile { heads, rows: records };
        assert(t@ == TableModel { heads: all[0], rows: all.drop_first() });
        Ok(t)
    }

    /// Writes the table as comma-separated text: the header line, where there
    /// is at least one header, then one line for each row, each cell as it
    /// stands. Every line ends with a line feed.
    pub fn to_text(&self) -> (r: String)
        ensures
            r@ == serialized(self@),
    {
        let ghost lines = table_lines(self@);
        let ghost row_lines = self@.rows.map_values(|r: Seq<Seq<char>>| join_with(r, ','));
        let mut out = String::new();
        let ghost mut done: Seq<Seq<char>> = Seq::empty();
        if self.heads.len() > 0 {
            let head_line = join_chars(&self.heads, ',');
            out.append(head_line.as_str());
            push_char(&mut out, '\n');
            proof {
                done = seq![head_line@];
                assert(done.drop_last() =~= Seq::<Seq<char>>::empty());
                assert(terminated_lines(done.drop_last()) =~= Seq::<char>::empty());
                assert(done.last() == head_line@);
                assert(out@ =~= terminated_lines(done));
            }
        }
        let ghost first = done;
        let mut k: usize = 0;
        while k < self.rows.len()
            invariant
                k <= self.rows.len(),
                row_lines.len() == self@.rows.len(),
                row_lines == self@.rows.map_values(|r: Seq<Seq<char>>| join_with(r, ',')),
                lines == first + row_lines,
                done == first + row_lines.subrange(0, k as int),
                out@ == terminated_lines(done),
            decreases self.rows.len() - k,
        {
            let line = join_chars(&self.rows[k], ',');
            assert(self.rows[k as int].deep_view() == self@.rows[k as int]);
            assert(line@ == row_lines[k as int]);
            out.append(line.as_str());
            push_char(&mut out, '\n');
            proof {
                let next = first + row_lines.subrange(0, k + 1);
                assert(next.drop_last() =~= done);
                assert(next.last() == line@);
                assert(out@ =~= terminated_lines(done) + line@.push('\n'));
                done = next;
            }
            k = k + 1;
        }
        assert(done =~= lines);
        out
    }
}

impl CsvFile {
    /// The table drawn for reading by people, each header and cell framed as
    /// `- text -`. It is not meant to be read back.
    pub fn render(&self) -> (r: String)
        ensures
            r@ == rendered(self@),
    {
        let bar = border_of(&self.heads);
        let mut out = String::new();
        out.append(bar.as_str());
        push_char(&mut out, '\n');
        let head_line = frame_all(&self.heads);
        out.append(head_line.as_str());
        push_char(&mut out, '\n');
        out.append(bar.as_str());
        push_char(&mut out, '\n');
        let ghost top = out@;
        assert(top =~= border(self@.heads).push('\n') + framed_all(self@.heads).push('\n')
            + border(self@.heads).push('\n'));
        let mut k: usize = 0;
        while k < self.rows.len()
            invariant
                k <= self.rows.len(),
                out@ == top + rendered_rows(self@.rows.subrange(0, k as int)),
            decreases self.rows.len() - k,
        {
            let ghost next = self@.rows.subrange(0, k + 1);
            assert(next.drop_last() =~= self@.rows.subrange(0, k as int));
            assert(next.last() == self.rows[k as int].deep_view());
            let line = frame_all(&self.rows[k]);
            out.append(line.as_str());
            push_char(&mut out, '\n');
            assert(out@ =~= top + rendered_rows(next));
            k = k + 1;
        }
        assert(self@.rows.subrange(0, k as int) =~= self@.rows);
        out
    }
}

} // verus!
