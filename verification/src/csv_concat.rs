use vstd::prelude::*;
use crate::csv::{
    csv_rows, is_blank, lemma_split_on_len, lemma_split_on_push, lines, row_of, rows_of, split_on,
    strip_cr,
};
use crate::text::{is_white_space, trim, trim_end, trim_start};

verus! {

broadcast use vstd::seq_lib::group_seq_properties;

proof fn lemma_trim_start_push(x: Seq<char>, c: char)
    ensures
        trim_start(x.push(c)) == (if trim_start(x).len() == 0 {
            if is_white_space(c) {
                Seq::<char>::empty()
            } else {
                seq![c]
            }
        } else {
            trim_start(x).push(c)
        }),
    decreases x.len(),
{
    if x.len() == 0 {
        let one = x.push(c);
        assert(one =~= seq![c]);
        if is_white_space(c) {
            assert(one.drop_first() =~= Seq::<char>::empty());
        }
    } else if is_white_space(x[0]) {
        lemma_trim_start_push(x.drop_first(), c);
        assert(x.push(c).drop_first() =~= x.drop_first().push(c));
    }
}

/// Trimming ignores whitespace added at the end.
proof fn lemma_trim_push_white_space(x: Seq<char>, w: char)
    requires
        is_white_space(w),
    ensures
        trim(x.push(w)) == trim(x),
{
    lemma_trim_start_push(x, w);
    let t = trim_start(x);
    if t.len() > 0 {
        assert(t.push(w).drop_last() =~= t);
    }
}

proof fn lemma_split_on_after_sep(a: Seq<char>, b: Seq<char>, sep: char)
    ensures
        split_on(a.push(sep) + b, sep) == split_on(a, sep) + split_on(b, sep),
    decreases b.len(),
{
    if b.len() == 0 {
        assert(a.push(sep) + b =~= a.push(sep));
        lemma_split_on_push(a, sep, sep);
        assert(split_on(b, sep) =~= seq![Seq::<char>::empty()]);
        assert(split_on(a, sep).push(Seq::<char>::empty()) =~= split_on(a, sep) + seq![
            Seq::<char>::empty(),
        ]);
    } else {
        let b0 = b.drop_last();
        let c = b.last();
        lemma_split_on_after_sep(a, b0, sep);
        assert(a.push(sep) + b =~= (a.push(sep) + b0).push(c));
        lemma_split_on_push(a.push(sep) + b0, c, sep);
        assert(b0.push(c) =~= b);
        lemma_split_on_push(b0, c, sep);
        lemma_split_on_len(b0, sep);
        let sa = split_on(a, sep);
        let sb = split_on(b0, sep);
        if c == sep {
            assert((sa + sb).push(Seq::<char>::empty()) =~= sa + sb.push(Seq::<char>::empty()));
        } else {
            assert((sa + sb).update((sa + sb).len() - 1, (sa + sb).last().push(c)) =~= sa + sb.update(
                sb.len() - 1,
                sb.last().push(c),
            ));
        }
    }
}

proof fn lemma_rows_of_concat(x: Seq<Seq<char>>, y: Seq<Seq<char>>)
    ensures
        rows_of(x + y) == rows_of(x) + rows_of(y),
    decreases y.len(),
{
    if y.len() == 0 {
        assert(x + y =~= x);
        assert(rows_of(x) + rows_of(y) =~= rows_of(x));
    } else {
        let y0 = y.drop_last();
        lemma_rows_of_concat(x, y0);
        assert((x + y).drop_last() =~= x + y0);
        assert((x + y).last() == y.last());
        if !is_blank(y.last()) {
            assert((rows_of(x) + rows_of(y0)).push(row_of(y.last())) =~= rows_of(x) + rows_of(
                y0,
            ).push(row_of(y.last())));
        }
    }
}

proof fn lemma_rows_of_single(l: Seq<char>)
    ensures
        rows_of(seq![l]) == (if is_blank(l) {
            Seq::<Seq<Seq<char>>>::empty()
        } else {
            seq![row_of(l)]
        }),
{
    let one = seq![l];
    assert(one.drop_last() =~= Seq::<Seq<char>>::empty());
    assert(one.last() == l);
    assert(rows_of(one.drop_last()) =~= Seq::<Seq<Seq<char>>>::empty());
    if !is_blank(l) {
        assert(Seq::<Seq<Seq<char>>>::empty().push(row_of(l)) =~= seq![row_of(l)]);
    }
}

/// A line ending in a carriage return gives the row it gives without it.
proof fn lemma_strip_cr_keeps_row(l: Seq<char>)
    ensures
        is_blank(strip_cr(l)) == is_blank(l),
        row_of(strip_cr(l)) == row_of(l),
{
    if l.len() > 0 && l.last() == '\r' {
        let m = l.drop_last();
        assert(m.push('\r') =~= l);
        assert(is_white_space('\r'));
        lemma_trim_push_white_space(m, '\r');
        lemma_split_on_push(m, '\r', ',');
        lemma_split_on_len(m, ',');
        let s = split_on(m, ',');
        lemma_trim_push_white_space(s.last(), '\r');
        assert(s.update(s.len() - 1, s.last().push('\r')).map_values(|c: Seq<char>| trim(c))
            =~= s.map_values(|c: Seq<char>| trim(c)));
    }
}

/// Parsing two texts joined by a line break gives the rows of the first and
/// then those of the second.
pub proof fn law_rows_of_joined_texts(a: Seq<char>, b: Seq<char>)
    ensures
        csv_rows(a + seq!['\n'] + b) == csv_rows(a) + csv_rows(b),
{
    let joined = a + seq!['\n'] + b;
    assert(joined =~= a.push('\n') + b);
    lemma_split_on_after_sep(a, b, '\n');
    lemma_split_on_len(a, '\n');
    lemma_split_on_len(b, '\n');
    let sa = split_on(a, '\n');
    let sb = split_on(b, '\n');
    let p = sa + sb;
    let a1 = sa.drop_last().map_values(|l: Seq<char>| strip_cr(l));
    let la = sa.last();
    let ob = if sb.last().len() > 0 {
        seq![sb.last()]
    } else {
        Seq::<Seq<char>>::empty()
    };
    let oa = if la.len() > 0 {
        seq![la]
    } else {
        Seq::<Seq<char>>::empty()
    };
    let bl = sb.drop_last().map_values(|l: Seq<char>| strip_cr(l));
    // The lines of each text, and of the joined one.
    assert(lines(b) =~= bl + ob);
    assert(lines(a) =~= a1 + oa);
    assert(p.drop_last() =~= sa + sb.drop_last());
    assert(p.last() == sb.last());
    assert(lines(joined) =~= a1 + seq![strip_cr(la)] + lines(b));
    // Rows distribute over the lines.
    lemma_rows_of_concat(a1 + seq![strip_cr(la)], lines(b));
    lemma_rows_of_concat(a1, seq![strip_cr(la)]);
    lemma_rows_of_concat(a1, oa);
    // The last line of `a` gives the same rows, ended or not.
    lemma_rows_of_single(strip_cr(la));
    lemma_strip_cr_keeps_row(la);
    if la.len() > 0 {
        lemma_rows_of_single(la);
    } else {
        assert(strip_cr(la) == la);
        assert(trim(la) =~= Seq::<char>::empty());
        assert(rows_of(oa) =~= Seq::<Seq<Seq<char>>>::empty());
    }
    assert(rows_of(seq![strip_cr(la)]) == rows_of(oa));
}

} // verus!
