//! What holds across the table's operations.
use crate::table::{parsed, serialized, table_lines, CsvFile};
use crate::text::{
    ended_lines, has_char, join_with, lemma_split_join, lemma_split_terminated,
    records_from_lines, records_of, split_on, strip_cr, text_lines,
};
use vstd::prelude::*;

verus! {

/// Whether no cell of `cells` holds `c`.
pub open spec fn cells_free_of(cells: Seq<Seq<char>>, c: char) -> bool {
    forall|i: int| 0 <= i < cells.len() ==> !has_char(#[trigger] cells[i], c)
}

/// Whether the line survives a read unchanged: it is not empty, so it is not
/// skipped, and it does not end in a carriage return, which would be dropped.
pub open spec fn line_kept(l: Seq<char>) -> bool {
    l.len() > 0 && l.last() != '\r'
}

proof fn lemma_join_free_of(parts: Seq<Seq<char>>, sep: char, c: char)
    requires
        c != sep,
        cells_free_of(parts, c),
    ensures
        !has_char(join_with(parts, sep), c),
    decreases parts.len(),
{
    if parts.len() > 1 {
        let init = parts.drop_last();
        assert(cells_free_of(init, c)) by {
            assert forall|i: int| 0 <= i < init.len() implies !has_char(#[trigger] init[i], c) by {
                assert(init[i] == parts[i]);
            }
        }
        lemma_join_free_of(init, sep, c);
        assert(!has_char(parts[parts.len() - 1], c));
        let j = join_with(parts, sep);
        let a = join_with(init, sep).push(sep);
        assert(j == a + parts.last());
        if has_char(j, c) {
            let k = choose|k: int| 0 <= k < j.len() && j[k] == c;
            if k < a.len() {
                assert(j[k] == a[k]);
                if k < a.len() - 1 {
                    assert(join_with(init, sep)[k] == c);
                }
            } else {
                assert(parts.last()[k - a.len()] == c);
            }
        }
    } else if parts.len() == 1 {
        assert(!has_char(parts[0], c));
    }
}

proof fn lemma_records_of_kept(lines: Seq<Seq<char>>)
    requires
        forall|i: int| 0 <= i < lines.len() ==> (#[trigger] lines[i]).len() > 0,
    ensures
        records_from_lines(lines) == lines.map_values(|l: Seq<char>| split_on(l, ',')),
    decreases lines.len(),
{
    if lines.len() > 0 {
        let init = lines.drop_last();
        lemma_records_of_kept(init);
        assert(lines[lines.len() - 1].len() > 0);
        assert(lines.map_values(|l: Seq<char>| split_on(l, ',')) =~= init.map_values(
            |l: Seq<char>| split_on(l, ','),
        ).push(split_on(lines.last(), ',')));
    } else {
        assert(lines.map_values(|l: Seq<char>| split_on(l, ',')) =~= Seq::<
            Seq<Seq<char>>,
        >::empty());
    }
}

/// Writing a table out and reading the text back gives the same table, where
/// every row has as many cells as there are headers, there is at least one
/// header, no header or cell holds a comma or a line feed, and every written
/// line is non-empty and does not end in a carriage return.
pub proof fn lemma_write_then_read(t: CsvFile)
    requires
        t@.heads.len() > 0,
        forall|i: int| 0 <= i < t@.rows.len() ==> (#[trigger] t@.rows[i]).len() == t@.heads.len(),
        cells_free_of(t@.heads, ','),
        cells_free_of(t@.heads, '\n'),
        forall|i: int|
            0 <= i < t@.rows.len() ==> cells_free_of(#[trigger] t@.rows[i], ',') && cells_free_of(
                t@.rows[i],
                '\n',
            ),
        forall|i: int|
            0 <= i < table_lines(t@).len() ==> line_kept(#[trigger] table_lines(t@)[i]),
    ensures
        parsed(serialized(t@)) == Some(t@),
{
    let m = t@;
    let lines = table_lines(m);
    let recs = seq![m.heads] + m.rows;
    assert(lines =~= recs.map_values(|r: Seq<Seq<char>>| join_with(r, ',')));
    assert forall|i: int| 0 <= i < lines.len() implies !has_char(#[trigger] lines[i], '\n') by {
        lemma_join_free_of(recs[i], ',', '\n');
    }
    lemma_split_terminated(lines);
    let text = serialized(m);
    let e = Seq::<char>::empty();
    assert(split_on(text, '\n') == lines.push(e));
    assert(lines.push(e).drop_last() =~= lines);
    assert(ended_lines(text) =~= lines) by {
        assert forall|i: int| 0 <= i < lines.len() implies strip_cr(#[trigger] lines[i])
            == lines[i] by {
            assert(line_kept(lines[i]));
        }
    }
    assert(text_lines(text) =~= lines.push(e));
    assert(text_lines(text).drop_last() =~= lines);
    lemma_records_of_kept(lines);
    assert(records_of(text) == records_from_lines(lines));
    assert forall|i: int| 0 <= i < recs.len() implies split_on(
        join_with(#[trigger] recs[i], ','),
        ',',
    ) == recs[i] by {
        lemma_split_join(recs[i], ',');
    }
    assert(records_of(text) =~= recs);
    assert(recs.drop_first() =~= m.rows);
}

proof fn lemma_records_none_kept(lines: Seq<Seq<char>>)
    ensures
        records_from_lines(lines).len() == 0 <==> forall|i: int|
            0 <= i < lines.len() ==> (#[trigger] lines[i]).len() == 0,
    decreases lines.len(),
{
    if lines.len() > 0 {
        let init = lines.drop_last();
        lemma_records_none_kept(init);
        if lines.last().len() == 0 {
            assert forall|i: int| 0 <= i < init.len() implies (#[trigger] lines[i]).len() == 0
                <==> init[i].len() == 0 by {
                assert(init[i] == lines[i]);
            }
            if forall|i: int| 0 <= i < init.len() ==> (#[trigger] init[i]).len() == 0 {
                assert forall|i: int| 0 <= i < lines.len() implies (#[trigger] lines[i]).len()
                    == 0 by {
                    if i < init.len() {
                        assert(init[i].len() == 0);
                    }
                }
            } else {
                let j = choose|j: int| 0 <= j < init.len() && (#[trigger] init[j]).len() != 0;
                assert(lines[j] == init[j]);
            }
        } else {
            assert(lines[lines.len() - 1].len() != 0);
        }
    }
}

/// Reading fails exactly on text that has no non-empty line: such text never
/// gives an empty table.
pub proof fn lemma_read_fails_without_lines(text: Seq<char>)
    ensures
        parsed(text) is None <==> forall|i: int|
            0 <= i < text_lines(text).len() ==> (#[trigger] text_lines(text)[i]).len() == 0,
{
    lemma_records_none_kept(text_lines(text));
}

} // verus!
