//! The bordered rendering of a table, for reading by people.
use crate::text::push_char;
use vstd::prelude::*;
use vstd::utf8::encode_utf8;

verus! {

/// `s` framed as `- s -`.
pub open spec fn framed(s: Seq<char>) -> Seq<char> {
    seq!['-', ' '] + s + seq![' ', '-']
}

/// Each of `parts` framed, one after another.
pub open spec fn framed_all(parts: Seq<Seq<char>>) -> Seq<char>
    decreases parts.len(),
{
    if parts.len() == 0 {
        Seq::<char>::empty()
    } else {
        framed_all(parts.drop_last()) + framed(parts.last())
    }
}

/// `n` dashes.
pub open spec fn dashes(n: nat) -> Seq<char> {
    Seq::new(n, |i: int| '-')
}

/// The border line's text: for each header as many dashes as its UTF-8
/// encoding has bytes, framed.
pub open spec fn border(heads: Seq<Seq<char>>) -> Seq<char> {
    framed_all(heads.map_values(|h: Seq<char>| dashes(encode_utf8(h).len())))
}

/// One line for each row: its cells framed, then a line feed.
pub open spec fn rendered_rows(rows: Seq<Seq<Seq<char>>>) -> Seq<char>
    decreases rows.len(),
{
    if rows.len() == 0 {
        Seq::<char>::empty()
    } else {
        rendered_rows(rows.drop_last()) + framed_all(rows.last()).push('\n')
    }
}

/// Appends `s` framed as `- s -` to `out`.
fn append_framed(out: &mut String, s: &str)
    ensures
        final(out)@ == old(out)@ + framed(s@),
{
    push_char(out, '-');
    push_char(out, ' ');
    out.append(s);
    push_char(out, ' ');
    push_char(out, '-');
    assert(final(out)@ =~= old(out)@ + framed(s@));
}

/// Each of `parts` framed, one after another.
pub fn frame_all(parts: &Vec<String>) -> (r: String)
    ensures
        r@ == framed_all(parts.deep_view()),
{
    let mut out = String::new();
    let mut i: usize = 0;
    while i < parts.len()
        invariant
            i <= parts.len(),
            out@ == framed_all(parts.deep_view().subrange(0, i as int)),
        decreases parts.len() - i,
    {
        let ghost next = parts.deep_view().subrange(0, i + 1);
        assert(next.drop_last() =~= parts.deep_view().subrange(0, i as int));
        assert(next.last() == parts[i as int]@);
        append_framed(&mut out, parts[i].as_str());
        i = i + 1;
    }
    assert(parts.deep_view().subrange(0, i as int) =~= parts.deep_view());
    out
}

/// The border line's text for `heads`.
pub fn border_of(heads: &Vec<String>) -> (r: String)
    ensures
        r@ == border(heads.deep_view()),
{
    let mut marks: Vec<String> = Vec::new();
    let mut i: usize = 0;
    while i < heads.len()
        invariant
            i <= heads.len(),
            marks.deep_view() == heads.deep_view().subrange(0, i as int).map_values(
                |h: Seq<char>| dashes(encode_utf8(h).len()),
            ),
        decreases heads.len() - i,
    {
        let h = heads[i].as_str();
        let n = h.as_bytes().len();
        assert(n as nat == encode_utf8(heads.deep_view()[i as int]).len());
        let mut d = String::new();
        let mut j: usize = 0;
        while j < n
            invariant
                j <= n,
                d@ == dashes(j as nat),
            decreases n - j,
        {
            push_char(&mut d, '-');
            assert(d@ =~= dashes((j + 1) as nat));
            j = j + 1;
        }
        let ghost prev = marks.deep_view();
        marks.push(d);
        assert(marks.deep_view() =~= prev.push(dashes(n as nat)));
        assert(marks.deep_view() =~= heads.deep_view().subrange(0, i + 1).map_values(
            |h: Seq<char>| dashes(encode_utf8(h).len()),
        ));
        i = i + 1;
    }
    assert(heads.deep_view().subrange(0, i as int) =~= heads.deep_view());
    frame_all(&marks)
}

} // verus!
