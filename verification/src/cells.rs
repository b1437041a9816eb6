use vstd::prelude::*;
use crate::csv::{
    free_of, lemma_split_on_len, lemma_split_pieces_free_of, lines, row_of, split_on, strip_cr,
};
use crate::html::joined;
use crate::text::trim;

verus! {

broadcast use vstd::seq_lib::group_seq_properties;

/// How many times `c` occurs in `s`.
pub open spec fn count_of(s: Seq<char>, c: char) -> nat
    decreases s.len(),
{
    if s.len() == 0 {
        0
    } else {
        count_of(s.drop_last(), c) + if s.last() == c {
            1nat
        } else {
            0nat
        }
    }
}

proof fn lemma_joined_extend_last(ps: Seq<Seq<char>>, sep: Seq<char>, c: char)
    requires
        ps.len() > 0,
    ensures
        joined(ps.update(ps.len() - 1, ps.last().push(c)), sep) == joined(ps, sep).push(c),
{
    let qs = ps.update(ps.len() - 1, ps.last().push(c));
    if ps.len() == 1 {
        assert(qs[0] == ps[0].push(c));
    } else {
        assert(qs.drop_last() =~= ps.drop_last());
        assert(joined(ps.drop_last(), sep) + sep + ps.last().push(c) =~= (joined(ps.drop_last(), sep)
            + sep + ps.last()).push(c));
    }
}

/// The pieces of a text split at `sep` are the text: put back together with
/// `sep` between each two, they give the text again. None of them holds
/// `sep`, and there is one more piece than there are occurrences of `sep`.
pub proof fn law_split_pieces_rejoin(s: Seq<char>, sep: char)
    ensures
        joined(split_on(s, sep), seq![sep]) == s,
        split_on(s, sep).len() == count_of(s, sep) + 1,
        forall|i: int| 0 <= i < split_on(s, sep).len() ==> free_of(#[trigger] split_on(s, sep)[i], sep),
    decreases s.len(),
{
    lemma_split_pieces_free_of(s, sep, sep);
    if s.len() == 0 {
        assert(joined(seq![Seq::<char>::empty()], seq![sep]) == Seq::<char>::empty());
    } else {
        let prev = s.drop_last();
        let c = s.last();
        law_split_pieces_rejoin(prev, sep);
        lemma_split_on_len(prev, sep);
        let p = split_on(prev, sep);
        assert(prev.push(c) =~= s);
        if c == sep {
            let q = p.push(Seq::<char>::empty());
            assert(q.drop_last() =~= p);
            assert(joined(q, seq![sep]) == joined(p, seq![sep]) + seq![sep] + Seq::<char>::empty());
            assert(prev + seq![sep] + Seq::<char>::empty() =~= s);
        } else {
            lemma_joined_extend_last(p, seq![sep], c);
        }
    }
}

/// A parsed row has one cell for each comma-separated piece of its line, in
/// order, each the piece trimmed: a line with `k` commas gives `k + 1` cells.
pub proof fn law_row_has_a_cell_per_piece(l: Seq<char>)
    ensures
        row_of(l).len() == split_on(l, ',').len(),
        row_of(l).len() == count_of(l, ',') + 1,
        forall|j: int| 0 <= j < row_of(l).len() ==> #[trigger] row_of(l)[j] == trim(split_on(l, ',')[j]),
{
    law_split_pieces_rejoin(l, ',');
}

/// The lines of a text without carriage returns are the text: put back
/// together with a line break between each two, they give the text again,
/// but for its final line break, if it has one. No line holds a line break.
pub proof fn law_lines_rejoin(s: Seq<char>)
    requires
        free_of(s, '\r'),
    ensures
        joined(lines(s), seq!['\n']) + (if s.len() > 0 && s.last() == '\n' {
            seq!['\n']
        } else {
            Seq::<char>::empty()
        }) == s,
        forall|i: int| 0 <= i < lines(s).len() ==> free_of(#[trigger] lines(s)[i], '\n'),
{
    law_split_pieces_rejoin(s, '\n');
    lemma_split_on_len(s, '\n');
    lemma_split_pieces_free_of(s, '\n', '\r');
    let p = split_on(s, '\n');
    assert forall|i: int| 0 <= i < p.len() implies strip_cr(#[trigger] p[i]) == p[i] by {
        assert(free_of(p[i], '\r'));
        if p[i].len() > 0 {
            assert(p[i].last() == p[i][p[i].len() - 1]);
        }
    }
    let dl = p.drop_last();
    assert(dl.map_values(|l: Seq<char>| strip_cr(l)) =~= dl);
    let last = p.last();
    if last.len() > 0 {
        assert(dl.push(last) =~= p);
        assert(lines(s) =~= p);
        assert(free_of(last, '\n'));
        if p.len() == 1 {
            assert(s == last);
        } else {
            assert(s == joined(dl, seq!['\n']) + seq!['\n'] + last);
        }
        assert(s.last() == last.last());
        assert(joined(lines(s), seq!['\n']) + Seq::<char>::empty() =~= s);
    } else {
        assert(lines(s) =~= dl);
        if p.len() == 1 {
            assert(s.len() == 0);
            assert(joined(dl, seq!['\n']) + Seq::<char>::empty() =~= s);
        } else {
            assert(s == joined(dl, seq!['\n']) + seq!['\n'] + last);
            assert(last =~= Seq::<char>::empty());
            assert(s =~= joined(dl, seq!['\n']) + seq!['\n']);
        }
    }
}

} // verus!
