use vstd::prelude::*;
use crate::options::{decimal, decimal_string};
use crate::text::{chars_of, is_trimmed, lemma_trim_is_trimmed_range, string_from_range, trim, trim_range};

verus! {

broadcast use vstd::seq_lib::group_seq_properties;

/// The pieces of `s` between the occurrences of `sep`, in order; there is
/// always at least one, and `sep` occurs in none.
pub open spec fn split_on(s: Seq<char>, sep: char) -> Seq<Seq<char>>
    decreases s.len(),
{
    if s.len() == 0 {
        seq![Seq::<char>::empty()]
    } else {
        let prev = split_on(s.drop_last(), sep);
        if s.last() == sep {
            prev.push(Seq::<char>::empty())
        } else {
            prev.update(prev.len() - 1, prev.last().push(s.last()))
        }
    }
}

/// A line without the carriage return of a `\r\n` line ending.
pub open spec fn strip_cr(l: Seq<char>) -> Seq<char> {
    if l.len() > 0 && l.last() == '\r' {
        l.drop_last()
    } else {
        l
    }
}

/// The lines of `s`: split at `\n` or `\r\n`, the line ending not part of
/// the line, and no empty line after a final line ending.
pub open spec fn lines(s: Seq<char>) -> Seq<Seq<char>> {
    let p = split_on(s, '\n');
    let ended = p.drop_last().map_values(|l: Seq<char>| strip_cr(l));
    if p.last().len() > 0 {
        ended.push(p.last())
    } else {
        ended
    }
}

/// A line that holds nothing but whitespace.
pub open spec fn is_blank(l: Seq<char>) -> bool {
    trim(l).len() == 0
}

/// The cells of one line: the pieces between commas, each trimmed.
pub open spec fn row_of(l: Seq<char>) -> Seq<Seq<char>> {
    split_on(l, ',').map_values(|c: Seq<char>| trim(c))
}

/// The rows of the given lines, blank lines left out.
pub open spec fn rows_of(ls: Seq<Seq<char>>) -> Seq<Seq<Seq<char>>>
    decreases ls.len(),
{
    if ls.len() == 0 {
        Seq::empty()
    } else {
        let prev = rows_of(ls.drop_last());
        if is_blank(ls.last()) {
            prev
        } else {
            prev.push(row_of(ls.last()))
        }
    }
}

/// The rows of a CSV text.
pub open spec fn csv_rows(s: Seq<char>) -> Seq<Seq<Seq<char>>> {
    rows_of(lines(s))
}

pub proof fn lemma_split_on_len(s: Seq<char>, sep: char)
    ensures
        split_on(s, sep).len() >= 1,
    decreases s.len(),
{
    if s.len() > 0 {
        lemma_split_on_len(s.drop_last(), sep);
    }
}

pub(crate) proof fn lemma_split_on_push(s: Seq<char>, c: char, sep: char)
    ensures
        split_on(s.push(c), sep) == (if c == sep {
            split_on(s, sep).push(Seq::<char>::empty())
        } else {
            split_on(s, sep).update(
                split_on(s, sep).len() - 1,
                split_on(s, sep).last().push(c),
            )
        }),
{
    assert(s.push(c).drop_last() =~= s);
}

proof fn lemma_rows_of_push(ls: Seq<Seq<char>>, l: Seq<char>)
    ensures
        rows_of(ls.push(l)) == (if is_blank(l) {
            rows_of(ls)
        } else {
            rows_of(ls).push(row_of(l))
        }),
{
    assert(ls.push(l).drop_last() =~= ls);
}

/// The trimmed cells of `chars[lo..hi]`, split at commas.
fn split_row(chars: &Vec<char>, lo: usize, hi: usize) -> (r: Vec<String>)
    requires
        lo <= hi <= chars.len(),
    ensures
        r.deep_view() == row_of(chars@.subrange(lo as int, hi as int)),
{
    let mut cells: Vec<String> = Vec::new();
    let ghost mut pieces: Seq<Seq<char>> = Seq::empty();
    let mut start = lo;
    let mut i = lo;
    while i < hi
        invariant
            lo <= start <= i <= hi <= chars.len(),
            split_on(chars@.subrange(lo as int, i as int), ',') == pieces.push(
                chars@.subrange(start as int, i as int),
            ),
            cells.deep_view() == pieces.map_values(|c: Seq<char>| trim(c)),
        decreases hi - i,
    {
        let ghost before = chars@.subrange(lo as int, i as int);
        assert(chars@.subrange(lo as int, i + 1) =~= before.push(chars@[i as int]));
        proof {
            lemma_split_on_push(before, chars@[i as int], ',');
        }
        if chars[i] == ',' {
            let (a, b) = trim_range(chars, start, i);
            let cell = string_from_range(chars, a, b);
            let ghost old_cells = cells.deep_view();
            cells.push(cell);
            proof {
                assert(cells.deep_view() =~= old_cells.push(trim(chars@.subrange(start as int, i as int))));
                pieces = pieces.push(chars@.subrange(start as int, i as int));
                assert(cells.deep_view() =~= pieces.map_values(|c: Seq<char>| trim(c)));
                assert(chars@.subrange(i + 1, i + 1) =~= Seq::<char>::empty());
            }
            start = i + 1;
        } else {
            assert(chars@.subrange(start as int, i + 1) =~= chars@.subrange(start as int, i as int).push(
                chars@[i as int],
            ));
            assert(pieces.push(chars@.subrange(start as int, i as int)).update(
                pieces.len() as int,
                chars@.subrange(start as int, i + 1),
            ) =~= pieces.push(chars@.subrange(start as int, i + 1)));
        }
        i += 1;
    }
    let (a, b) = trim_range(chars, start, hi);
    let cell = string_from_range(chars, a, b);
    let ghost old_cells = cells.deep_view();
    cells.push(cell);
    proof {
        assert(cells.deep_view() =~= old_cells.push(trim(chars@.subrange(start as int, hi as int))));
        pieces = pieces.push(chars@.subrange(start as int, hi as int));
        assert(cells.deep_view() =~= pieces.map_values(|c: Seq<char>| trim(c)));
    }
    cells
}

/// Parses a CSV text into rows of trimmed cells, leaving out blank lines.
#[verifier::spinoff_prover]
pub fn parse_csv_rows(csv: &str) -> (rows: Vec<Vec<String>>)
    ensures
        rows.deep_view() == csv_rows(csv@),
{
    let chars = chars_of(csv);
    let n = chars.len();
    let mut rows: Vec<Vec<String>> = Vec::new();
    let ghost mut pieces: Seq<Seq<char>> = Seq::empty();
    let mut start: usize = 0;
    let mut i: usize = 0;
    while i < n
        invariant
            n == chars.len(),
            0 <= start <= i <= n,
            split_on(chars@.subrange(0, i as int), '\n') == pieces.push(
                chars@.subrange(start as int, i as int),
            ),
            rows.deep_view() == rows_of(pieces.map_values(|l: Seq<char>| strip_cr(l))),
        decreases n - i,
    {
        let ghost before = chars@.subrange(0, i as int);
        assert(chars@.subrange(0, i + 1) =~= before.push(chars@[i as int]));
        proof {
            lemma_split_on_push(before, chars@[i as int], '\n');
        }
        if chars[i] == '\n' {
            let end = if i > start && chars[i - 1] == '\r' {
                i - 1
            } else {
                i
            };
            let ghost line = chars@.subrange(start as int, i as int);
            assert(chars@.subrange(start as int, end as int) == strip_cr(line)) by {
                if i > start && chars@[i - 1] == '\r' {
                    assert(line.drop_last() =~= chars@.subrange(start as int, end as int));
                }
            }
            let (a, b) = trim_range(&chars, start, end);
            proof {
                let mapped = pieces.map_values(|l: Seq<char>| strip_cr(l));
                lemma_rows_of_push(mapped, strip_cr(line));
                pieces = pieces.push(line);
                assert(pieces.map_values(|l: Seq<char>| strip_cr(l)) =~= mapped.push(strip_cr(line)));
                assert(chars@.subrange(i + 1, i + 1) =~= Seq::<char>::empty());
            }
            if a < b {
                let row = split_row(&chars, start, end);
                let ghost prev_rows = rows.deep_view();
                let ghost new_row = row.deep_view();
                rows.push(row);
                assert(rows.deep_view() =~= prev_rows.push(new_row));
                assert(rows.deep_view() =~= rows_of(pieces.map_values(|l: Seq<char>| strip_cr(l))));
            }
            start = i + 1;
        } else {
            assert(chars@.subrange(start as int, i + 1) =~= chars@.subrange(start as int, i as int).push(
                chars@[i as int],
            ));
            assert(pieces.push(chars@.subrange(start as int, i as int)).update(
                pieces.len() as int,
                chars@.subrange(start as int, i + 1),
            ) =~= pieces.push(chars@.subrange(start as int, i + 1)));
        }
        i += 1;
    }
    assert(chars@.subrange(0, n as int) =~= csv@);
    let ghost last = chars@.subrange(start as int, n as int);
    proof {
        let p = pieces.push(last);
        assert(p.drop_last() =~= pieces);
        assert(p.last() == last);
    }
    if start < n {
        let (a, b) = trim_range(&chars, start, n);
        proof {
            lemma_rows_of_push(pieces.map_values(|l: Seq<char>| strip_cr(l)), last);
        }
        if a < b {
            let row = split_row(&chars, start, n);
            let ghost prev_rows = rows.deep_view();
            let ghost new_row = row.deep_view();
            rows.push(row);
            assert(rows.deep_view() =~= prev_rows.push(new_row));
            assert(rows.deep_view() =~= rows_of(lines(csv@)));
        }
    }
    rows
}

/// A row whose first cell holds something.
pub open spec fn has_first_cell(row: Seq<Seq<char>>) -> bool {
    row.len() > 0 && row[0].len() > 0
}

/// Why an agent list is refused.
#[derive(Debug, Clone, Copy, PartialEq, Eq, Structural)]
pub enum AgentsError {
    /// The list holds no row at all.
    NoRows,
    /// The row of this number, counted from one, has no identifier in its
    /// first cell.
    EmptyIdentifier(usize),
}

/// Reads an agent list: its CSV rows, each of which must name the agent in
/// its first cell. The first row that does not is reported.
pub fn agents_from_csv(csv: &str) -> (r: Result<Vec<Vec<String>>, AgentsError>)
    ensures
        (r matches Err(AgentsError::NoRows)) <==> csv_rows(csv@).len() == 0,
        r matches Err(AgentsError::EmptyIdentifier(n)) ==> {
            &&& 1 <= n <= csv_rows(csv@).len()
            &&& !has_first_cell(csv_rows(csv@)[n - 1])
            &&& forall|j: int| 0 <= j < n - 1 ==> has_first_cell(#[trigger] csv_rows(csv@)[j])
        },
        r is Ok <==> (csv_rows(csv@).len() > 0 && forall|j: int|
            0 <= j < csv_rows(csv@).len() ==> has_first_cell(#[trigger] csv_rows(csv@)[j])),
        r matches Ok(rows) ==> rows.deep_view() == csv_rows(csv@),
        r is Ok <==> (csv_rows(csv@).len() > 0 && forall|j: int|
            0 <= j < csv_rows(csv@).len() ==> (#[trigger] csv_rows(csv@)[j]).len() > 0
                && csv_rows(csv@)[j][0].len() > 0),
        r matches Err(AgentsError::EmptyIdentifier(n)) ==> (csv_rows(csv@)[n - 1].len() == 0
            || csv_rows(csv@)[n - 1][0].len() == 0),
{
    let rows = parse_csv_rows(csv);
    let ghost spec_rows = csv_rows(csv@);
    if rows.len() == 0 {
        return Err(AgentsError::NoRows);
    }
    let mut i: usize = 0;
    while i < rows.len()
        invariant
            spec_rows == csv_rows(csv@),
            rows.deep_view() == spec_rows,
            0 <= i <= rows.len(),
            rows.len() > 0,
            forall|j: int| 0 <= j < i ==> has_first_cell(#[trigger] spec_rows[j]),
        decreases rows.len() - i,
    {
        assert(rows.deep_view()[i as int] == rows[i as int].deep_view());
        assert(rows[i as int].len() > 0 ==> rows[i as int].deep_view()[0] == rows[i as int][0]@);
        if rows[i].len() == 0 || rows[i][0].as_str().is_empty() {
            assert(!has_first_cell(spec_rows[i as int]));
            return Err(AgentsError::EmptyIdentifier(i + 1));
        }
        i += 1;
    }
    Ok(rows)
}

impl AgentsError {
    /// The message that explains this error to the user.
    pub fn message(&self) -> (r: String)
        ensures
            r@ == agents_error_text(*self),
    {
        match self {
            AgentsError::NoRows => String::from_str("Agents CSV contains no rows"),
            AgentsError::EmptyIdentifier(n) => {
                let mut r = String::from_str("Agent row ");
                let number = decimal_string(*n as u64);
                r.append(number.as_str());
                r.append(" has an empty identifier");
                r
            },
        }
    }
}

/// The message that explains an [`AgentsError`] to the user.
pub open spec fn agents_error_text(e: AgentsError) -> Seq<char> {
    match e {
        AgentsError::NoRows => "Agents CSV contains no rows"@,
        AgentsError::EmptyIdentifier(n) => "Agent row "@ + decimal(n as nat)
            + " has an empty identifier"@,
    }
}

/// The review metadata fields that the rows name: the first cell of each
/// row, where it holds something, in order.
pub open spec fn metadata_fields(rows: Seq<Seq<Seq<char>>>) -> Seq<Seq<char>>
    decreases rows.len(),
{
    if rows.len() == 0 {
        Seq::empty()
    } else {
        let prev = metadata_fields(rows.drop_last());
        if has_first_cell(rows.last()) {
            prev.push(rows.last()[0])
        } else {
            prev
        }
    }
}

/// Reads the review metadata fields of a CSV text, one field per row.
pub fn metadata_fields_from_csv(csv: &str) -> (r: Vec<String>)
    ensures
        r.deep_view() == metadata_fields(csv_rows(csv@)),
{
    let rows = parse_csv_rows(csv);
    let ghost spec_rows = csv_rows(csv@);
    let mut fields: Vec<String> = Vec::new();
    let mut i: usize = 0;
    while i < rows.len()
        invariant
            rows.deep_view() == spec_rows,
            0 <= i <= rows.len(),
            fields.deep_view() == metadata_fields(spec_rows.take(i as int)),
        decreases rows.len() - i,
    {
        assert(spec_rows.take(i + 1).drop_last() =~= spec_rows.take(i as int));
        assert(rows.deep_view()[i as int] == rows[i as int].deep_view());
        let ghost before = fields.deep_view();
        if rows[i].len() > 0 && !rows[i][0].as_str().is_empty() {
            assert(rows[i as int].deep_view()[0] == rows[i as int][0]@);
            let field = rows[i][0].clone();
            fields.push(field);
            assert(fields.deep_view() =~= before.push(spec_rows[i as int][0]));
        } else {
            assert(rows[i as int].len() > 0 ==> rows[i as int].deep_view()[0] == rows[i as int][0]@);
        }
        i += 1;
    }
    assert(spec_rows.take(rows.len() as int) =~= spec_rows);
    fields
}


/// No character of `s` is `c`.
pub open spec fn free_of(s: Seq<char>, c: char) -> bool {
    forall|k: int| 0 <= k < s.len() ==> s[k] != c
}

/// What holds of every cell of a parsed row: it is trimmed and holds neither
/// a comma nor a line break.
pub open spec fn is_clean_cell(cell: Seq<char>) -> bool {
    &&& is_trimmed(cell)
    &&& free_of(cell, ',')
    &&& free_of(cell, '\n')
}

pub proof fn lemma_split_pieces_free_of(s: Seq<char>, sep: char, c: char)
    requires
        c == sep || free_of(s, c),
    ensures
        forall|i: int| 0 <= i < split_on(s, sep).len() ==> free_of(#[trigger] split_on(s, sep)[i], c),
    decreases s.len(),
{
    if s.len() > 0 {
        let prev = s.drop_last();
        lemma_split_pieces_free_of(prev, sep, c);
        lemma_split_on_len(prev, sep);
        let p = split_on(prev, sep);
        if s.last() != sep {
            let l = p.last().push(s.last());
            assert(free_of(l, c)) by {
                assert(free_of(p[p.len() - 1], c));
            }
            assert forall|i: int| 0 <= i < split_on(s, sep).len() implies free_of(
                #[trigger] split_on(s, sep)[i],
                c,
            ) by {
                if i < p.len() - 1 {
                    assert(split_on(s, sep)[i] == p[i]);
                }
            }
        } else {
            assert forall|i: int| 0 <= i < split_on(s, sep).len() implies free_of(
                #[trigger] split_on(s, sep)[i],
                c,
            ) by {
                if i < p.len() {
                    assert(split_on(s, sep)[i] == p[i]);
                }
            }
        }
    }
}

proof fn lemma_trim_keeps_free_of(s: Seq<char>, c: char)
    requires
        free_of(s, c),
    ensures
        free_of(trim(s), c),
{
    lemma_trim_is_trimmed_range(s);
    let (a, b) = choose|a: int, b: int| 0 <= a <= b <= s.len() && trim(s) == #[trigger] s.subrange(a, b);
    assert forall|k: int| 0 <= k < trim(s).len() implies trim(s)[k] != c by {
        assert(trim(s)[k] == s[a + k]);
    }
}

proof fn lemma_row_of_clean(l: Seq<char>)
    requires
        free_of(l, '\n'),
    ensures
        row_of(l).len() >= 1,
        forall|j: int| 0 <= j < row_of(l).len() ==> is_clean_cell(#[trigger] row_of(l)[j]),
{
    lemma_split_on_len(l, ',');
    lemma_split_pieces_free_of(l, ',', ',');
    lemma_split_pieces_free_of(l, ',', '\n');
    assert forall|j: int| 0 <= j < row_of(l).len() implies is_clean_cell(#[trigger] row_of(l)[j]) by {
        let piece = split_on(l, ',')[j];
        assert(row_of(l)[j] == trim(piece));
        lemma_trim_is_trimmed_range(piece);
        lemma_trim_keeps_free_of(piece, ',');
        lemma_trim_keeps_free_of(piece, '\n');
    }
}

proof fn lemma_lines_free_of_newline(s: Seq<char>)
    ensures
        forall|i: int| 0 <= i < lines(s).len() ==> free_of(#[trigger] lines(s)[i], '\n'),
{
    let p = split_on(s, '\n');
    lemma_split_on_len(s, '\n');
    lemma_split_pieces_free_of(s, '\n', '\n');
    let ended = p.drop_last().map_values(|l: Seq<char>| strip_cr(l));
    assert forall|i: int| 0 <= i < lines(s).len() implies free_of(#[trigger] lines(s)[i], '\n') by {
        if i < ended.len() {
            let q = p[i];
            assert(lines(s)[i] == strip_cr(q));
            assert(free_of(q, '\n'));
            if q.len() > 0 && q.last() == '\r' {
                assert forall|k: int| 0 <= k < strip_cr(q).len() implies strip_cr(q)[k] != '\n' by {
                    assert(strip_cr(q)[k] == q[k]);
                }
            }
        } else {
            assert(lines(s)[i] == p[p.len() - 1]);
        }
    }
}

proof fn lemma_rows_of_clean(ls: Seq<Seq<char>>)
    requires
        forall|i: int| 0 <= i < ls.len() ==> free_of(#[trigger] ls[i], '\n'),
    ensures
        forall|i: int| 0 <= i < rows_of(ls).len() ==> (#[trigger] rows_of(ls)[i]).len() >= 1,
        forall|i: int, j: int|
            0 <= i < rows_of(ls).len() && 0 <= j < rows_of(ls)[i].len() ==> is_clean_cell(
                #[trigger] rows_of(ls)[i][j],
            ),
    decreases ls.len(),
{
    if ls.len() > 0 {
        let prev = ls.drop_last();
        assert forall|i: int| 0 <= i < prev.len() implies free_of(#[trigger] prev[i], '\n') by {
            assert(prev[i] == ls[i]);
        }
        lemma_rows_of_clean(prev);
        assert(free_of(ls[ls.len() - 1], '\n'));
        lemma_row_of_clean(ls.last());
        let pr = rows_of(prev);
        let rows = rows_of(ls);
        assert forall|i: int| 0 <= i < rows.len() implies (#[trigger] rows[i]).len() >= 1 by {
            if i < pr.len() {
                assert(rows[i] == pr[i]);
            }
        }
        assert forall|i: int, j: int| 0 <= i < rows.len() && 0 <= j < rows[i].len() implies is_clean_cell(
            #[trigger] rows[i][j],
        ) by {
            if i < pr.len() {
                assert(rows[i] == pr[i]);
            } else {
                assert(rows[i] == row_of(ls.last()));
            }
        }
    }
}

/// Every parsed row has at least one cell, and every cell is trimmed and
/// holds neither a comma nor a line break.
pub proof fn law_csv_cells_are_clean(s: Seq<char>)
    ensures
        forall|i: int| 0 <= i < csv_rows(s).len() ==> (#[trigger] csv_rows(s)[i]).len() >= 1,
        forall|i: int, j: int|
            0 <= i < csv_rows(s).len() && 0 <= j < csv_rows(s)[i].len() ==> is_clean_cell(
                #[trigger] csv_rows(s)[i][j],
            ),
{
    lemma_lines_free_of_newline(s);
    lemma_rows_of_clean(lines(s));
}

/// Every metadata field holds something.
pub proof fn law_metadata_fields_are_nonempty(rows: Seq<Seq<Seq<char>>>)
    ensures
        forall|i: int| 0 <= i < metadata_fields(rows).len() ==> (
        #[trigger] metadata_fields(rows)[i]).len() > 0,
    decreases rows.len(),
{
    if rows.len() > 0 {
        law_metadata_fields_are_nonempty(rows.drop_last());
        let prev = metadata_fields(rows.drop_last());
        let fields = metadata_fields(rows);
        assert forall|i: int| 0 <= i < fields.len() implies (#[trigger] fields[i]).len() > 0 by {
            if i < prev.len() {
                assert(fields[i] == prev[i]);
            }
        }
    }
}

/// The rows of a text are the rows of its lines that are not blank, in
/// order: blank lines are skipped, and every other line yields one row.
pub proof fn law_rows_are_the_nonblank_lines(ls: Seq<Seq<char>>)
    ensures
        rows_of(ls) == ls.filter(|l: Seq<char>| !is_blank(l)).map_values(|l: Seq<char>| row_of(l)),
    decreases ls.len(),
{
    reveal_with_fuel(Seq::<_>::filter, 1);
    if ls.len() > 0 {
        law_rows_are_the_nonblank_lines(ls.drop_last());
        let kept = ls.drop_last().filter(|l: Seq<char>| !is_blank(l));
        if !is_blank(ls.last()) {
            assert(kept.push(ls.last()).map_values(|l: Seq<char>| row_of(l)) =~= kept.map_values(
                |l: Seq<char>| row_of(l),
            ).push(row_of(ls.last())));
        }
    } else {
        assert(ls.filter(|l: Seq<char>| !is_blank(l)).map_values(|l: Seq<char>| row_of(l)) =~= Seq::<
            Seq<Seq<char>>,
        >::empty());
    }
}

/// An agent row is refused for its identifier exactly when it has no cell
/// or its first cell is empty; whatever the first cell holds otherwise is an
/// identifier.
pub proof fn law_identifier_is_a_nonempty_first_cell(row: Seq<Seq<char>>)
    ensures
        has_first_cell(row) <==> (row.len() > 0 && row[0].len() > 0),
{
}

} // verus!
