//! The delimited-text format: splitting on a separator, joining with one, and
//! the lemmas that relate the two.
use vstd::prelude::*;

verus! {

/// The pieces of `s` between occurrences of `sep`, in order. There is always
/// at least one piece: the empty text is one empty piece.
pub open spec fn split_on(s: Seq<char>, sep: char) -> Seq<Seq<char>>
    decreases s.len(),
{
    if s.len() == 0 {
        seq![Seq::<char>::empty()]
    } else {
        let prev = split_on(s.drop_last(), sep);
        if s.last() == sep {
            prev.push(Seq::<char>::empty())
        } else {
            prev.update(prev.len() - 1, prev.last().push(s.last()))
        }
    }
}

/// The pieces of `parts` written one after another with `sep` between them.
pub open spec fn join_with(parts: Seq<Seq<char>>, sep: char) -> Seq<char>
    decreases parts.len(),
{
    if parts.len() == 0 {
        Seq::<char>::empty()
    } else if parts.len() == 1 {
        parts[0]
    } else {
        join_with(parts.drop_last(), sep).push(sep) + parts.last()
    }
}

/// Each line of `lines` followed by a line feed.
pub open spec fn terminated_lines(lines: Seq<Seq<char>>) -> Seq<char>
    decreases lines.len(),
{
    if lines.len() == 0 {
        Seq::<char>::empty()
    } else {
        terminated_lines(lines.drop_last()) + lines.last().push('\n')
    }
}

/// A line without the carriage return that ended it, if it had one.
pub open spec fn strip_cr(line: Seq<char>) -> Seq<char> {
    if line.len() > 0 && line.last() == '\r' {
        line.drop_last()
    } else {
        line
    }
}

/// The lines that a line feed ends in `text`, each without a carriage return
/// before its line feed.
pub open spec fn ended_lines(text: Seq<char>) -> Seq<Seq<char>> {
    split_on(text, '\n').drop_last().map_values(|l: Seq<char>| strip_cr(l))
}

/// The lines of `text`: those that a line feed ends, then the last piece,
/// which no line feed ends, kept as it stands.
pub open spec fn text_lines(text: Seq<char>) -> Seq<Seq<char>> {
    ended_lines(text).push(split_on(text, '\n').last())
}

/// Each non-empty line of `lines` split on commas, in order; empty lines are
/// skipped.
pub open spec fn records_from_lines(lines: Seq<Seq<char>>) -> Seq<Seq<Seq<char>>>
    decreases lines.len(),
{
    if lines.len() == 0 {
        Seq::<Seq<Seq<char>>>::empty()
    } else {
        let prev = records_from_lines(lines.drop_last());
        if lines.last().len() > 0 {
            prev.push(split_on(lines.last(), ','))
        } else {
            prev
        }
    }
}

/// The records of `text`: each non-empty line split on commas.
pub open spec fn records_of(text: Seq<char>) -> Seq<Seq<Seq<char>>> {
    records_from_lines(text_lines(text))
}

/// Whether `c` occurs in `s`.
pub open spec fn has_char(s: Seq<char>, c: char) -> bool {
    exists|i: int| 0 <= i < s.len() && s[i] == c
}

/// Splitting always gives at least one piece.
pub proof fn lemma_split_nonempty(s: Seq<char>, sep: char)
    ensures
        split_on(s, sep).len() >= 1,
    decreases s.len(),
{
    if s.len() > 0 {
        lemma_split_nonempty(s.drop_last(), sep);
    }
}

/// Appending text free of the separator extends the last piece.
pub proof fn lemma_split_append_plain(a: Seq<char>, b: Seq<char>, sep: char)
    requires
        !has_char(b, sep),
    ensures
        ({
            let p = split_on(a, sep);
            split_on(a + b, sep) == p.update(p.len() - 1, p.last() + b)
        }),
    decreases b.len(),
{
    lemma_split_nonempty(a, sep);
    let p = split_on(a, sep);
    if b.len() == 0 {
        assert(a + b =~= a);
        assert(p.last() + b =~= p.last());
        assert(p.update(p.len() - 1, p.last()) =~= p);
    } else {
        let b0 = b.drop_last();
        assert(!has_char(b0, sep)) by {
            if has_char(b0, sep) {
                let i = choose|i: int| 0 <= i < b0.len() && b0[i] == sep;
                assert(b[i] == sep);
            }
        }
        lemma_split_append_plain(a, b0, sep);
        assert((a + b).drop_last() =~= a + b0);
        assert(b.last() != sep) by {
            assert(b[b.len() - 1] == b.last());
        }
        assert((a + b).last() == b.last());
        assert((p.last() + b0).push(b.last()) =~= p.last() + b);
        let q = p.update(p.len() - 1, p.last() + b0);
        assert(q.update(q.len() - 1, q.last().push(b.last())) =~= p.update(
            p.len() - 1,
            p.last() + b,
        ));
    }
}

/// Splitting text joined with a separator that no part holds gives the parts back.
pub proof fn lemma_split_join(parts: Seq<Seq<char>>, sep: char)
    requires
        parts.len() >= 1,
        forall|i: int| 0 <= i < parts.len() ==> !has_char(#[trigger] parts[i], sep),
    ensures
        split_on(join_with(parts, sep), sep) == parts,
    decreases parts.len(),
{
    let e = Seq::<char>::empty();
    if parts.len() == 1 {
        lemma_split_append_plain(e, parts[0], sep);
        assert(e + parts[0] =~= parts[0]);
        assert(split_on(e, sep) =~= seq![e]);
        assert(seq![e].update(0, e + parts[0]) =~= parts);
    } else {
        let init = parts.drop_last();
        lemma_split_join(init, sep);
        let a = join_with(init, sep).push(sep);
        assert(!has_char(parts[parts.len() - 1], sep));
        lemma_split_append_plain(a, parts.last(), sep);
        assert(a.drop_last() =~= join_with(init, sep));
        assert(split_on(a, sep) == init.push(e));
        assert(e + parts.last() =~= parts.last());
        assert(init.push(e).update(init.len() as int, parts.last()) =~= parts);
    }
}

/// Splitting terminated lines on the line feed gives the lines and one empty
/// piece after the last terminator.
pub proof fn lemma_split_terminated(lines: Seq<Seq<char>>)
    requires
        forall|i: int| 0 <= i < lines.len() ==> !has_char(#[trigger] lines[i], '\n'),
    ensures
        split_on(terminated_lines(lines), '\n') == lines.push(Seq::<char>::empty()),
    decreases lines.len(),
{
    let e = Seq::<char>::empty();
    if lines.len() == 0 {
        assert(split_on(e, '\n') =~= seq![e]);
        assert(lines.push(e) =~= seq![e]);
    } else {
        let init = lines.drop_last();
        lemma_split_terminated(init);
        let a = terminated_lines(init);
        let l = lines.last();
        assert(!has_char(lines[lines.len() - 1], '\n'));
        lemma_split_append_plain(a, l, '\n');
        assert(terminated_lines(lines) =~= (a + l).push('\n'));
        assert((a + l).push('\n').drop_last() =~= a + l);
        assert(e + l =~= l);
        assert(init.push(e).update(init.len() as int, l) =~= lines);
        assert(lines.push(e) =~= lines.push(e));
    }
}

/// Relies on `String::push`: the character is appended at the end.
#[verifier::external_body]
pub(crate) fn push_char(s: &mut String, c: char)
    ensures
        final(s)@ == old(s)@.push(c),
{
    s.push(c)
}

/// The pieces of `s` between occurrences of `sep`.
pub fn split_chars(s: &str, sep: char) -> (r: Vec<String>)
    ensures
        r.deep_view() == split_on(s@, sep),
{
    let mut pieces: Vec<String> = Vec::new();
    let mut cur = String::new();
    for c in it: s.chars()
        invariant
            it.seq() == s@,
            pieces.deep_view().push(cur@) == split_on(s@.subrange(0, it.index() as int), sep),
    {
        let ghost before = s@.subrange(0, it.index() as int);
        let ghost after = s@.subrange(0, it.index() + 1);
        assert(after.drop_last() =~= before);
        assert(after.last() == c);
        let ghost prev = pieces.deep_view();
        if c == sep {
            pieces.push(cur);
            cur = String::new();
            assert(pieces.deep_view() =~= prev.push(split_on(before, sep).last()));
            assert(pieces.deep_view().push(cur@) =~= split_on(after, sep));
        } else {
            push_char(&mut cur, c);
            assert(pieces.deep_view().push(cur@) =~= split_on(after, sep));
        }
    }
    assert(s@.subrange(0, s@.len() as int) =~= s@);
    let ghost prev = pieces.deep_view();
    pieces.push(cur);
    assert(pieces.deep_view() =~= prev.push(cur@));
    pieces
}

/// The strings of `parts` written one after another with `sep` between them.
pub fn join_chars(parts: &Vec<String>, sep: char) -> (r: String)
    ensures
        r@ == join_with(parts.deep_view(), sep),
{
    let mut out = String::new();
    let mut i: usize = 0;
    while i < parts.len()
        invariant
            i <= parts.len(),
            out@ == join_with(parts.deep_view().subrange(0, i as int), sep),
        decreases parts.len() - i,
    {
        let ghost done = parts.deep_view().subrange(0, i as int);
        let ghost next = parts.deep_view().subrange(0, i + 1);
        assert(next.drop_last() =~= done);
        assert(next.last() == parts[i as int]@);
        if i > 0 {
            push_char(&mut out, sep);
        } else {
            assert(out@ =~= Seq::<char>::empty());
        }
        out.append(parts[i].as_str());
        assert(out@ =~= join_with(next, sep));
        i = i + 1;
    }
    assert(parts.deep_view().subrange(0, i as int) =~= parts.deep_view());
    out
}

} // verus!
