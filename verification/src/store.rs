use vstd::prelude::*;
use crate::csv::{
    csv_rows, free_of, is_blank, is_clean_cell, law_csv_cells_are_clean, lemma_split_on_len,
    lemma_split_on_push, lines, metadata_fields, row_of, rows_of, split_on, strip_cr,
};
use crate::html::with_metadata;
use crate::text::{is_white_space, lemma_trim_of_trimmed, push_char, trim};

verus! {

broadcast use vstd::seq_lib::group_seq_properties;

/// The file, in the instance's hidden `.qams` directory, that keeps the
/// review metadata fields of the last `init` or `update` that named them, so
/// that an `update` without metadata keeps them on `scorecard.html`.
pub const KEPT_METADATA_FILE: &'static str = "metadata.csv";

/// The text under which an instance keeps its metadata fields: each field
/// on a line of its own.
pub open spec fn metadata_text(fields: Seq<Seq<char>>) -> Seq<char>
    decreases fields.len(),
{
    if fields.len() == 0 {
        Seq::empty()
    } else {
        metadata_text(fields.drop_last()) + fields.last() + seq!['\n']
    }
}

/// Writes the metadata fields as a CSV text, one field per line, from which
/// [`crate::csv::metadata_fields_from_csv`] reads them back.
pub fn metadata_csv(fields: &Vec<String>) -> (r: String)
    ensures
        r@ == metadata_text(fields.deep_view()),
{
    let ghost fs = fields.deep_view();
    let mut r = String::new();
    let mut i: usize = 0;
    while i < fields.len()
        invariant
            fs == fields.deep_view(),
            0 <= i <= fields.len(),
            r@ == metadata_text(fs.take(i as int)),
        decreases fields.len() - i,
    {
        assert(fs[i as int] == fields[i as int]@);
        assert(fs.take(i + 1).drop_last() =~= fs.take(i as int));
        r.append(fields[i].as_str());
        push_char(&mut r, '\n');
        i += 1;
    }
    assert(fs.take(fields.len() as int) =~= fs);
    r
}

/// What a metadata field read from a CSV text always is: not empty, and a
/// clean cell.
pub open spec fn is_field(f: Seq<char>) -> bool {
    f.len() > 0 && is_clean_cell(f)
}

proof fn lemma_split_on_append_free(s: Seq<char>, t: Seq<char>, sep: char)
    requires
        free_of(t, sep),
    ensures
        split_on(s + t, sep) == split_on(s, sep).update(
            split_on(s, sep).len() - 1,
            split_on(s, sep).last() + t,
        ),
    decreases t.len(),
{
    lemma_split_on_len(s, sep);
    let p = split_on(s, sep);
    if t.len() == 0 {
        assert(s + t =~= s);
        assert(p.last() + t =~= p.last());
        assert(p.update(p.len() - 1, p.last()) =~= p);
    } else {
        let t0 = t.drop_last();
        let c = t.last();
        assert(free_of(t0, sep)) by {
            assert forall|k: int| 0 <= k < t0.len() implies t0[k] != sep by {
                assert(t0[k] == t[k]);
            }
        }
        lemma_split_on_append_free(s, t0, sep);
        assert(s + t =~= (s + t0).push(c));
        lemma_split_on_push(s + t0, c, sep);
        assert(c != sep);
        let q = p.update(p.len() - 1, p.last() + t0);
        assert((p.last() + t0).push(c) =~= p.last() + t);
        assert(q.update(q.len() - 1, q.last().push(c)) =~= p.update(p.len() - 1, p.last() + t));
    }
}

proof fn lemma_split_metadata_text(fs: Seq<Seq<char>>)
    requires
        forall|i: int| 0 <= i < fs.len() ==> free_of(#[trigger] fs[i], '\n'),
    ensures
        split_on(metadata_text(fs), '\n') == fs.push(Seq::<char>::empty()),
    decreases fs.len(),
{
    if fs.len() == 0 {
        assert(metadata_text(fs) =~= Seq::<char>::empty());
        assert(fs.push(Seq::<char>::empty()) =~= seq![Seq::<char>::empty()]);
    } else {
        let prev = fs.drop_last();
        let f = fs.last();
        assert forall|i: int| 0 <= i < prev.len() implies free_of(#[trigger] prev[i], '\n') by {
            assert(prev[i] == fs[i]);
        }
        assert(free_of(f, '\n'));
        lemma_split_metadata_text(prev);
        let a = metadata_text(prev);
        lemma_split_on_append_free(a, f, '\n');
        let p = prev.push(Seq::<char>::empty());
        assert(Seq::<char>::empty() + f =~= f);
        assert(p.update(p.len() - 1, p.last() + f) =~= prev.push(f));
        assert(metadata_text(fs) =~= (a + f).push('\n'));
        lemma_split_on_push(a + f, '\n', '\n');
        assert(prev.push(f) =~= fs);
    }
}

proof fn lemma_field_is_single_cell(f: Seq<char>)
    requires
        is_field(f),
    ensures
        !is_blank(f),
        row_of(f) == seq![f],
        strip_cr(f) == f,
{
    lemma_trim_of_trimmed(f);
    lemma_split_on_append_free(Seq::<char>::empty(), f, ',');
    assert(Seq::<char>::empty() + f =~= f);
    assert(seq![Seq::<char>::empty()].update(0, Seq::<char>::empty() + f) =~= seq![f]);
    assert(row_of(f) =~= seq![trim(f)]);
    assert(is_white_space('\r'));
}

proof fn lemma_metadata_of_single_cells(fs: Seq<Seq<char>>)
    requires
        forall|i: int| 0 <= i < fs.len() ==> is_field(#[trigger] fs[i]),
    ensures
        metadata_fields(rows_of(fs)) == fs,
    decreases fs.len(),
{
    if fs.len() > 0 {
        let prev = fs.drop_last();
        assert forall|i: int| 0 <= i < prev.len() implies is_field(#[trigger] prev[i]) by {
            assert(prev[i] == fs[i]);
        }
        lemma_metadata_of_single_cells(prev);
        assert(is_field(fs[fs.len() - 1]));
        lemma_field_is_single_cell(fs.last());
        let rows = rows_of(fs);
        assert(rows == rows_of(prev).push(seq![fs.last()]));
        assert(rows.drop_last() =~= rows_of(prev));
        assert(prev.push(fs.last()) =~= fs);
    }
}

/// Fields written with [`metadata_text`] read back as the same fields, in
/// the same order.
pub proof fn law_metadata_text_round_trip(fields: Seq<Seq<char>>)
    requires
        forall|i: int| 0 <= i < fields.len() ==> is_field(#[trigger] fields[i]),
    ensures
        metadata_fields(csv_rows(metadata_text(fields))) == fields,
{
    lemma_split_metadata_text(fields);
    let p = fields.push(Seq::<char>::empty());
    assert(p.drop_last() =~= fields);
    assert forall|i: int| 0 <= i < fields.len() implies strip_cr(#[trigger] fields[i]) == fields[i] by {
        lemma_field_is_single_cell(fields[i]);
    }
    assert(lines(metadata_text(fields)) =~= fields);
    lemma_metadata_of_single_cells(fields);
}

proof fn lemma_metadata_fields_are_fields(rows: Seq<Seq<Seq<char>>>)
    requires
        forall|i: int, j: int|
            0 <= i < rows.len() && 0 <= j < rows[i].len() ==> is_clean_cell(#[trigger] rows[i][j]),
    ensures
        forall|i: int| 0 <= i < metadata_fields(rows).len() ==> is_field(#[trigger] metadata_fields(rows)[i]),
    decreases rows.len(),
{
    if rows.len() > 0 {
        let prev = rows.drop_last();
        assert forall|i: int, j: int| 0 <= i < prev.len() && 0 <= j < prev[i].len() implies is_clean_cell(
            #[trigger] prev[i][j],
        ) by {
            assert(prev[i] == rows[i]);
        }
        lemma_metadata_fields_are_fields(prev);
        let pf = metadata_fields(prev);
        let fields = metadata_fields(rows);
        assert forall|i: int| 0 <= i < fields.len() implies is_field(#[trigger] fields[i]) by {
            if i < pf.len() {
                assert(fields[i] == pf[i]);
            } else {
                assert(fields[i] == rows[rows.len() - 1][0]);
            }
        }
    }
}

/// The metadata fields read from any CSV text, once kept with
/// [`metadata_text`], read back as the same fields.
pub proof fn law_kept_metadata_reads_back(csv: Seq<char>)
    ensures
        metadata_fields(csv_rows(metadata_text(metadata_fields(csv_rows(csv)))))
            == metadata_fields(csv_rows(csv)),
{
    law_csv_cells_are_clean(csv);
    lemma_metadata_fields_are_fields(csv_rows(csv));
    law_metadata_text_round_trip(metadata_fields(csv_rows(csv)));
}

/// An `update` that names no metadata rebuilds the page with the fields that
/// `init` kept: from the same rendered scorecard page it writes exactly the
/// page that `init` wrote with the metadata CSV `meta_csv`.
pub proof fn law_update_keeps_the_metadata_of_init(rendered: Seq<char>, meta_csv: Seq<char>)
    ensures
        with_metadata(rendered, metadata_fields(csv_rows(metadata_text(metadata_fields(csv_rows(meta_csv))))))
            == with_metadata(rendered, metadata_fields(csv_rows(meta_csv))),
{
    law_kept_metadata_reads_back(meta_csv);
}

/// The metadata fields of some rows are the first cells of the rows whose
/// first cell holds something, in order.
pub proof fn law_metadata_fields_are_first_cells(rows: Seq<Seq<Seq<char>>>)
    ensures
        metadata_fields(rows) == rows.filter(|r: Seq<Seq<char>>| r.len() > 0 && r[0].len() > 0).map_values(
            |r: Seq<Seq<char>>| r[0],
        ),
    decreases rows.len(),
{
    reveal_with_fuel(Seq::<_>::filter, 1);
    if rows.len() > 0 {
        law_metadata_fields_are_first_cells(rows.drop_last());
        let kept = rows.drop_last().filter(|r: Seq<Seq<char>>| r.len() > 0 && r[0].len() > 0);
        let last = rows.last();
        if last.len() > 0 && last[0].len() > 0 {
            assert(kept.push(last).map_values(|r: Seq<Seq<char>>| r[0]) =~= kept.map_values(
                |r: Seq<Seq<char>>| r[0],
            ).push(last[0]));
        }
    } else {
        assert(rows.filter(|r: Seq<Seq<char>>| r.len() > 0 && r[0].len() > 0).map_values(
            |r: Seq<Seq<char>>| r[0],
        ) =~= Seq::<Seq<char>>::empty());
    }
}

} // verus!
