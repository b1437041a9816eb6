use vstd::prelude::*;
use crate::text::{chars_of, push_char, string_from_range};

verus! {

broadcast use vstd::seq_lib::group_seq_properties;

// ---------------------------------------------------------------------------
// Escaping

/// What one character becomes in escaped HTML text.
pub open spec fn escape_char(c: char) -> Seq<char> {
    if c == '&' {
        "&amp;"@
    } else if c == '<' {
        "&lt;"@
    } else if c == '>' {
        "&gt;"@
    } else if c == '"' {
        "&quot;"@
    } else if c == '\'' {
        "&#39;"@
    } else {
        seq![c]
    }
}

/// `s` with each of `& < > " '` replaced by its character reference.
pub open spec fn escaped(s: Seq<char>) -> Seq<char>
    decreases s.len(),
{
    if s.len() == 0 {
        Seq::empty()
    } else {
        escaped(s.drop_last()) + escape_char(s.last())
    }
}

/// Escapes `s` for use as HTML text or as a quoted attribute value.
pub fn escape_html(s: &str) -> (r: String)
    ensures
        r@ == escaped(s@),
{
    let chars = chars_of(s);
    let mut r = String::new();
    let mut i: usize = 0;
    while i < chars.len()
        invariant
            chars@ == s@,
            0 <= i <= chars.len(),
            r@ == escaped(s@.take(i as int)),
        decreases chars.len() - i,
    {
        let c = chars[i];
        if c == '&' {
            r.append("&amp;");
        } else if c == '<' {
            r.append("&lt;");
        } else if c == '>' {
            r.append("&gt;");
        } else if c == '"' {
            r.append("&quot;");
        } else if c == '\'' {
            r.append("&#39;");
        } else {
            push_char(&mut r, c);
        }
        assert(s@.take(i + 1).drop_last() =~= s@.take(i as int));
        i += 1;
    }
    assert(s@.take(chars.len() as int) =~= s@);
    r
}

// ---------------------------------------------------------------------------
// Identifiers

/// What `str::to_lowercase` returns for a string.
pub uninterp spec fn lowercase(s: Seq<char>) -> Seq<char>;

/// `str::to_lowercase`: the string mapped to lower case by the Unicode
/// case tables. Its result depends on the characters alone and is named
/// [`lowercase`]; nothing more of it is stated.
#[verifier::external_body]
fn to_lowercase(s: &str) -> (r: String)
    ensures
        r@ == lowercase(s@),
{
    s.to_lowercase()
}

/// What `char::is_alphanumeric` returns for a character.
pub uninterp spec fn alphanumeric(c: char) -> bool;

/// `char::is_alphanumeric`: whether the character is alphabetic or numeric
/// in the Unicode sense. Its result depends on the character alone and is
/// named [`alphanumeric`]; nothing more of it is stated.
#[verifier::external_body]
fn is_alphanumeric(c: char) -> (r: bool)
    ensures
        r == alphanumeric(c),
{
    c.is_alphanumeric()
}

/// The character that stands for `c` in an identifier, given whether `c` is
/// alphanumeric: `c` itself if it is, an underscore if not.
pub fn id_char(c: char, is_alnum: bool) -> (r: char)
    ensures
        r == (if is_alnum { c } else { '_' }),
{
    if is_alnum {
        c
    } else {
        '_'
    }
}

/// `lower` with each character that is not alphanumeric replaced by `_`.
pub open spec fn sanitised(lower: Seq<char>) -> Seq<char> {
    Seq::new(lower.len(), |i: int| if alphanumeric(lower[i]) { lower[i] } else { '_' })
}

/// Turns an already lower-cased text into an identifier.
pub fn sanitise_lowercase(lower: &str) -> (r: String)
    ensures
        r@ == sanitised(lower@),
{
    let chars = chars_of(lower);
    let mut r = String::new();
    let mut i: usize = 0;
    while i < chars.len()
        invariant
            chars@ == lower@,
            0 <= i <= chars.len(),
            r@ == sanitised(lower@).take(i as int),
        decreases chars.len() - i,
    {
        let c = chars[i];
        let alnum = is_alphanumeric(c);
        push_char(&mut r, id_char(c, alnum));
        assert(sanitised(lower@).take(i + 1) =~= sanitised(lower@).take(i as int).push(
            sanitised(lower@)[i as int],
        ));
        i += 1;
    }
    assert(sanitised(lower@).take(chars.len() as int) =~= sanitised(lower@));
    r
}

/// An HTML identifier for `s`: `s` in lower case, every character that is
/// not alphanumeric replaced by `_`.
pub fn sanitise_id(s: &str) -> (r: String)
    ensures
        r@ == sanitised(lowercase(s@)),
{
    let lower = to_lowercase(s);
    sanitise_lowercase(lower.as_str())
}

// ---------------------------------------------------------------------------
// Review metadata inputs

/// The form field for one metadata field, under identifier `id` and with
/// escaped label `esc`.
pub open spec fn field_html(id: Seq<char>, esc: Seq<char>) -> Seq<char> {
    "<div class=\"field\">\n          <label for=\""@ + id + "\">"@ + esc
        + "</label>\n          <input type=\"text\" id=\""@ + id + "\" name=\""@ + id
        + "\" placeholder=\""@ + esc + "\">\n        </div>"@
}

/// The form field for the metadata field named `field`.
pub open spec fn metadata_field_html(field: Seq<char>) -> Seq<char> {
    field_html(sanitised(lowercase(field)), escaped(field))
}

/// Builds the form field for `field` under the identifier `id`.
pub fn field_html_with_id(id: &str, field: &str) -> (r: String)
    ensures
        r@ == field_html(id@, escaped(field@)),
{
    let esc = escape_html(field);
    let mut r = String::from_str("<div class=\"field\">\n          <label for=\"");
    r.append(id);
    r.append("\">");
    r.append(esc.as_str());
    r.append("</label>\n          <input type=\"text\" id=\"");
    r.append(id);
    r.append("\" name=\"");
    r.append(id);
    r.append("\" placeholder=\"");
    r.append(esc.as_str());
    r.append("\">\n        </div>");
    r
}

/// Builds the form field for the metadata field named `field`.
pub fn metadata_field(field: &str) -> (r: String)
    ensures
        r@ == metadata_field_html(field@),
{
    let id = sanitise_id(field);
    field_html_with_id(id.as_str(), field)
}

/// The pieces put one after the other with `sep` between each two.
pub open spec fn joined(pieces: Seq<Seq<char>>, sep: Seq<char>) -> Seq<char>
    decreases pieces.len(),
{
    if pieces.len() == 0 {
        Seq::empty()
    } else if pieces.len() == 1 {
        pieces[0]
    } else {
        joined(pieces.drop_last(), sep) + sep + pieces.last()
    }
}

/// What separates two metadata form fields.
pub open spec fn field_separator() -> Seq<char> {
    "\n        "@
}

/// The form fields of all the metadata fields, in order.
pub open spec fn metadata_inputs_html(fields: Seq<Seq<char>>) -> Seq<char> {
    joined(fields.map_values(|f: Seq<char>| metadata_field_html(f)), field_separator())
}

/// Builds the form fields of all the metadata fields, in order.
pub fn metadata_inputs(fields: &Vec<String>) -> (r: String)
    ensures
        r@ == metadata_inputs_html(fields.deep_view()),
{
    let ghost blocks = fields.deep_view().map_values(|f: Seq<char>| metadata_field_html(f));
    let mut r = String::new();
    let mut i: usize = 0;
    while i < fields.len()
        invariant
            blocks == fields.deep_view().map_values(|f: Seq<char>| metadata_field_html(f)),
            0 <= i <= fields.len(),
            r@ == joined(blocks.take(i as int), field_separator()),
        decreases fields.len() - i,
    {
        assert(fields.deep_view()[i as int] == fields[i as int]@);
        let block = metadata_field(fields[i].as_str());
        assert(blocks.take(i + 1).drop_last() =~= blocks.take(i as int));
        if i > 0 {
            r.append("\n        ");
        }
        r.append(block.as_str());
        i += 1;
    }
    assert(blocks.take(fields.len() as int) =~= blocks);
    r
}

// ---------------------------------------------------------------------------
// Replacing the first occurrence of a text

/// `p` occurs in `h` at position `i`.
pub open spec fn occurs_at(h: Seq<char>, p: Seq<char>, i: int) -> bool {
    0 <= i && i + p.len() <= h.len() && h.subrange(i, i + p.len()) == p
}

/// `i` is the first position at which `p` occurs in `h`.
pub open spec fn is_first_occurrence(h: Seq<char>, p: Seq<char>, i: int) -> bool {
    &&& occurs_at(h, p, i)
    &&& forall|j: int| 0 <= j < i ==> !#[trigger] occurs_at(h, p, j)
}

/// `h` with the first occurrence of `p` replaced by `r`; `h` itself where
/// `p` does not occur.
pub open spec fn replace_first(h: Seq<char>, p: Seq<char>, r: Seq<char>) -> Seq<char> {
    if exists|i: int| #[trigger] occurs_at(h, p, i) {
        let i = choose|i: int| is_first_occurrence(h, p, i);
        h.subrange(0, i) + r + h.subrange(i + p.len(), h.len() as int)
    } else {
        h
    }
}

proof fn lemma_first_occurrence_unique(h: Seq<char>, p: Seq<char>, i: int, k: int)
    requires
        is_first_occurrence(h, p, i),
        is_first_occurrence(h, p, k),
    ensures
        i == k,
{
    if k < i {
        assert(!occurs_at(h, p, k));
    } else if i < k {
        assert(!occurs_at(h, p, i));
    }
}

/// Whether `p` occurs in `h` at position `i`.
fn matches_at(h: &Vec<char>, p: &Vec<char>, i: usize) -> (r: bool)
    requires
        i + p.len() <= h.len(),
    ensures
        r == (h@.subrange(i as int, i + p.len()) == p@),
{
    let mut k: usize = 0;
    while k < p.len()
        invariant
            i + p.len() <= h.len(),
            0 <= k <= p.len(),
            forall|m: int| 0 <= m < k ==> h@[i + m] == p@[m],
        decreases p.len() - k,
    {
        if h[i + k] != p[k] {
            assert(h@.subrange(i as int, i + p.len())[k as int] != p@[k as int]);
            return false;
        }
        k += 1;
    }
    assert(h@.subrange(i as int, i + p.len()) =~= p@);
    true
}

/// The first position at which `p` occurs in `h`, if any.
fn find_first(h: &Vec<char>, p: &Vec<char>) -> (r: Option<usize>)
    ensures
        r matches Some(i) ==> is_first_occurrence(h@, p@, i as int),
        r is None ==> forall|i: int| !#[trigger] occurs_at(h@, p@, i),
{
    if p.len() > h.len() {
        return None;
    }
    let last = h.len() - p.len();
    let mut i: usize = 0;
    loop
        invariant
            last + p.len() == h.len(),
            0 <= i <= last,
            forall|j: int| 0 <= j < i ==> !#[trigger] occurs_at(h@, p@, j),
        decreases last - i,
    {
        if matches_at(h, p, i) {
            return Some(i);
        }
        if i == last {
            return None;
        }
        i += 1;
    }
}

/// `h` with the first occurrence of `p` replaced by `r`, as
/// `str::replacen(h, p, r, 1)` does.
pub fn replace_first_occurrence(h: &str, p: &str, r: &str) -> (out: String)
    ensures
        out@ == replace_first(h@, p@, r@),
{
    let hs = chars_of(h);
    let ps = chars_of(p);
    match find_first(&hs, &ps) {
        Some(i) => {
            proof {
                assert(occurs_at(h@, p@, i as int));
                let k = choose|k: int| is_first_occurrence(h@, p@, k);
                lemma_first_occurrence_unique(h@, p@, i as int, k);
                assert(i + ps@.len() <= hs@.len());
            }
            let mut out = string_from_range(&hs, 0, i);
            out.append(r);
            assert(i + ps.len() <= hs.len());
            let rest = string_from_range(&hs, i + ps.len(), hs.len());
            out.append(rest.as_str());
            out
        },
        None => String::from_str(h),
    }
}

/// The part of the scorecard page after which the metadata fields go: the
/// end of the date field and of the block that holds it.
pub open spec fn metadata_anchor() -> Seq<char> {
    "<input type=\"date\" id=\"date\" name=\"date\">\n        </div>\n      </div>"@
}

/// What [`metadata_anchor`] becomes once the form fields `inputs` stand
/// after the date field, inside the same block.
pub open spec fn anchor_with_inputs(inputs: Seq<char>) -> Seq<char> {
    "<input type=\"date\" id=\"date\" name=\"date\">\n        </div>\n        "@ + inputs
        + "\n      </div>"@
}

/// The scorecard page `html` with a form field for each metadata field
/// after its date field; unchanged when there is no metadata field.
pub open spec fn with_metadata(html: Seq<char>, fields: Seq<Seq<char>>) -> Seq<char> {
    if fields.len() == 0 {
        html
    } else {
        replace_first(html, metadata_anchor(), anchor_with_inputs(metadata_inputs_html(fields)))
    }
}

/// Adds a form field for each review metadata field to the scorecard page,
/// right after its date field.
pub fn with_metadata_fields(html: &str, fields: &Vec<String>) -> (r: String)
    ensures
        r@ == with_metadata(html@, fields.deep_view()),
{
    if fields.len() == 0 {
        return String::from_str(html);
    }
    let inputs = metadata_inputs(fields);
    let mut replacement = String::from_str(
        "<input type=\"date\" id=\"date\" name=\"date\">\n        </div>\n        ",
    );
    replacement.append(inputs.as_str());
    replacement.append("\n      </div>");
    replace_first_occurrence(
        html,
        "<input type=\"date\" id=\"date\" name=\"date\">\n        </div>\n      </div>",
        replacement.as_str(),
    )
}

// ---------------------------------------------------------------------------
// Laws

/// `c` is one of the characters that escaping replaces.
pub open spec fn is_markup_char(c: char) -> bool {
    c == '&' || c == '<' || c == '>' || c == '"' || c == '\''
}

/// `c` is one of the characters that could end a text or an attribute value
/// early: none of them is left in escaped text.
pub open spec fn breaks_out(c: char) -> bool {
    c == '<' || c == '>' || c == '"' || c == '\''
}

proof fn lemma_escape_char_safe(c: char)
    ensures
        forall|k: int| 0 <= k < escape_char(c).len() ==> !breaks_out(#[trigger] escape_char(c)[k]),
{
    reveal_strlit("&amp;");
    reveal_strlit("&lt;");
    reveal_strlit("&gt;");
    reveal_strlit("&quot;");
    reveal_strlit("&#39;");
}

/// Escaped text holds none of `< > " '`.
pub proof fn law_escaped_text_cannot_break_out(s: Seq<char>)
    ensures
        forall|k: int| 0 <= k < escaped(s).len() ==> !breaks_out(#[trigger] escaped(s)[k]),
    decreases s.len(),
{
    if s.len() > 0 {
        law_escaped_text_cannot_break_out(s.drop_last());
        lemma_escape_char_safe(s.last());
        let prev = escaped(s.drop_last());
        let tail = escape_char(s.last());
        assert forall|k: int| 0 <= k < escaped(s).len() implies !breaks_out(#[trigger] escaped(s)[k]) by {
            if k < prev.len() {
                assert(escaped(s)[k] == prev[k]);
            } else {
                assert(escaped(s)[k] == tail[k - prev.len()]);
            }
        }
    }
}

/// Text without any of `& < > " '` is its own escape.
pub proof fn law_plain_text_escapes_to_itself(s: Seq<char>)
    requires
        forall|k: int| 0 <= k < s.len() ==> !is_markup_char(#[trigger] s[k]),
    ensures
        escaped(s) == s,
    decreases s.len(),
{
    if s.len() > 0 {
        let prev = s.drop_last();
        assert forall|k: int| 0 <= k < prev.len() implies !is_markup_char(#[trigger] prev[k]) by {
            assert(prev[k] == s[k]);
        }
        law_plain_text_escapes_to_itself(prev);
        assert(!is_markup_char(s[s.len() - 1]));
        assert(escaped(s) =~= prev.push(s.last()));
        assert(prev.push(s.last()) =~= s);
    }
}

/// An identifier is as long as the lower-cased text it is made from; it
/// keeps each alphanumeric character in its place and has `_` in the place
/// of every other.
pub proof fn law_identifier_characters(lower: Seq<char>)
    ensures
        sanitised(lower).len() == lower.len(),
        forall|k: int|
            0 <= k < lower.len() && alphanumeric(lower[k]) ==> #[trigger] sanitised(lower)[k]
                == lower[k],
        forall|k: int|
            0 <= k < lower.len() && !alphanumeric(lower[k]) ==> #[trigger] sanitised(lower)[k]
                == '_',
{
}

/// Without metadata fields the scorecard page stays as it is.
pub proof fn law_no_metadata_keeps_page(html: Seq<char>)
    ensures
        with_metadata(html, Seq::empty()) == html,
{
}

/// A page without the date field the metadata fields follow stays as it is.
pub proof fn law_page_without_anchor_is_kept(html: Seq<char>, fields: Seq<Seq<char>>)
    requires
        forall|i: int| !#[trigger] occurs_at(html, metadata_anchor(), i),
    ensures
        with_metadata(html, fields) == html,
{
}

/// Reads escaped text back, left to right: each of `&amp;`, `&lt;`, `&gt;`,
/// `&quot;` and `&#39;` becomes the character it stands for, and every other
/// character stands for itself.
pub open spec fn unescaped(t: Seq<char>) -> Seq<char>
    decreases t.len(),
{
    if t.len() == 0 {
        Seq::empty()
    } else if t.len() >= 5 && t.take(5) == "&amp;"@ {
        seq!['&'] + unescaped(t.skip(5))
    } else if t.len() >= 4 && t.take(4) == "&lt;"@ {
        seq!['<'] + unescaped(t.skip(4))
    } else if t.len() >= 4 && t.take(4) == "&gt;"@ {
        seq!['>'] + unescaped(t.skip(4))
    } else if t.len() >= 6 && t.take(6) == "&quot;"@ {
        seq!['"'] + unescaped(t.skip(6))
    } else if t.len() >= 5 && t.take(5) == "&#39;"@ {
        seq!['\''] + unescaped(t.skip(5))
    } else {
        seq![t[0]] + unescaped(t.skip(1))
    }
}

/// Escaping a concatenation escapes each part.
pub proof fn law_escaping_distributes_over_concatenation(u: Seq<char>, v: Seq<char>)
    ensures
        escaped(u + v) == escaped(u) + escaped(v),
    decreases v.len(),
{
    if v.len() == 0 {
        assert(u + v =~= u);
        assert(escaped(u) + escaped(v) =~= escaped(u));
    } else {
        let w = v.drop_last();
        law_escaping_distributes_over_concatenation(u, w);
        assert((u + v).drop_last() =~= u + w);
        assert((u + v).last() == v.last());
        assert(escaped(u) + escaped(w) + escape_char(v.last()) =~= escaped(u) + (escaped(w)
            + escape_char(v.last())));
    }
}

proof fn lemma_unescape_one(c: char, rest: Seq<char>)
    ensures
        unescaped(escape_char(c) + rest) == seq![c] + unescaped(rest),
{
    reveal_strlit("&amp;");
    reveal_strlit("&lt;");
    reveal_strlit("&gt;");
    reveal_strlit("&quot;");
    reveal_strlit("&#39;");
    let t = escape_char(c) + rest;
    if c == '&' {
        assert(t.take(5) =~= "&amp;"@);
        assert(t.skip(5) =~= rest);
    } else if c == '<' {
        assert(t[1] == 'l');
        assert(t.take(4) =~= "&lt;"@);
        assert(t.skip(4) =~= rest);
    } else if c == '>' {
        assert(t[1] == 'g');
        assert(t.take(4) =~= "&gt;"@);
        assert(t.skip(4) =~= rest);
    } else if c == '"' {
        assert(t[1] == 'q');
        assert(t.take(6) =~= "&quot;"@);
        assert(t.skip(6) =~= rest);
    } else if c == '\'' {
        assert(t[1] == '#');
        assert(t.take(5) =~= "&#39;"@);
        assert(t.skip(5) =~= rest);
    } else {
        assert(t[0] == c);
        assert(t.skip(1) =~= rest);
    }
}

/// Reading escaped text back gives the original text.
pub proof fn law_unescape_undoes_escape(s: Seq<char>)
    ensures
        unescaped(escaped(s)) == s,
    decreases s.len(),
{
    if s.len() > 0 {
        let rest = s.drop_first();
        law_unescape_undoes_escape(rest);
        assert(s =~= seq![s[0]] + rest);
        law_escaping_distributes_over_concatenation(seq![s[0]], rest);
        let one = seq![s[0]];
        assert(one.drop_last() =~= Seq::<char>::empty());
        assert(one.last() == s[0]);
        assert(escaped(one.drop_last()).len() == 0);
        assert(escaped(one) == escaped(one.drop_last()) + escape_char(s[0]));
        assert(escaped(one) =~= escape_char(s[0]));
        lemma_unescape_one(s[0], escaped(rest));
        assert(seq![s[0]] + rest =~= s);
    }
}

/// Different texts never escape to the same text.
pub proof fn law_escaping_is_injective(a: Seq<char>, b: Seq<char>)
    requires
        escaped(a) == escaped(b),
    ensures
        a == b,
{
    law_unescape_undoes_escape(a);
    law_unescape_undoes_escape(b);
}

/// Adding a piece to the end of a non-empty list adds the separator and the
/// piece to the end of their join.
pub proof fn law_joined_push(ps: Seq<Seq<char>>, p: Seq<char>, sep: Seq<char>)
    requires
        ps.len() > 0,
    ensures
        joined(ps.push(p), sep) == joined(ps, sep) + sep + p,
{
    assert(ps.push(p).drop_last() =~= ps);
}

/// The summed length of the pieces.
pub open spec fn total_len(ps: Seq<Seq<char>>) -> nat
    decreases ps.len(),
{
    if ps.len() == 0 {
        0
    } else {
        total_len(ps.drop_last()) + ps.last().len()
    }
}

/// A join is as long as all its pieces together and one separator between
/// each two of them.
pub proof fn law_joined_len(ps: Seq<Seq<char>>, sep: Seq<char>)
    ensures
        ps.len() > 0 ==> joined(ps, sep).len() == total_len(ps) + (ps.len() - 1) * sep.len(),
        ps.len() == 0 ==> joined(ps, sep).len() == 0,
    decreases ps.len(),
{
    if ps.len() > 1 {
        let prev = ps.drop_last();
        law_joined_len(prev, sep);
        let n: int = ps.len() - 1;
        let m: int = sep.len() as int;
        assert(n * m == (n - 1) * m + m) by (nonlinear_arith);
        assert(joined(ps, sep) == joined(prev, sep) + sep + ps.last());
        assert(total_len(ps) == total_len(prev) + ps.last().len());
        assert(prev.len() - 1 == n - 1);
    } else if ps.len() == 1 {
        assert(ps.drop_last().len() == 0);
        assert(total_len(ps) == total_len(ps.drop_last()) + ps.last().len());
        assert((ps.len() - 1) * sep.len() == 0);
    }
}

proof fn lemma_occurs_in_longer(x: Seq<char>, y: Seq<char>, p: Seq<char>, k: int)
    requires
        occurs_at(x, p, k),
    ensures
        occurs_at(x + y, p, k),
{
    assert((x + y).subrange(k, k + p.len()) =~= x.subrange(k, k + p.len()));
}

proof fn lemma_occurs_in_middle(x: Seq<char>, p: Seq<char>, y: Seq<char>)
    ensures
        occurs_at(x + p + y, p, x.len() as int),
{
    assert((x + p + y).subrange(x.len() as int, (x.len() + p.len()) as int) =~= p);
}

/// Every piece stands in their join.
pub proof fn law_joined_holds_every_piece(ps: Seq<Seq<char>>, sep: Seq<char>, i: int)
    requires
        0 <= i < ps.len(),
    ensures
        exists|k: int| occurs_at(joined(ps, sep), ps[i], k),
    decreases ps.len(),
{
    if ps.len() == 1 {
        lemma_occurs_in_middle(Seq::empty(), ps[0], Seq::empty());
        assert(Seq::<char>::empty() + ps[0] + Seq::<char>::empty() =~= ps[0]);
        assert(occurs_at(joined(ps, sep), ps[i], 0));
    } else {
        let prev = ps.drop_last();
        let front = joined(prev, sep);
        if i == ps.len() - 1 {
            lemma_occurs_in_middle(front + sep, ps[i], Seq::empty());
            assert(front + sep + ps[i] + Seq::<char>::empty() =~= joined(ps, sep));
            assert(occurs_at(joined(ps, sep), ps[i], (front + sep).len() as int));
        } else {
            law_joined_holds_every_piece(prev, sep, i);
            assert(prev[i] == ps[i]);
            let k = choose|k: int| occurs_at(front, prev[i], k);
            lemma_occurs_in_longer(front, sep + ps.last(), ps[i], k);
            assert(front + (sep + ps.last()) =~= joined(ps, sep));
            assert(occurs_at(joined(ps, sep), ps[i], k));
        }
    }
}

/// Each metadata field's form field stands in the metadata form fields.
pub proof fn law_metadata_inputs_hold_every_field(fields: Seq<Seq<char>>, i: int)
    requires
        0 <= i < fields.len(),
    ensures
        exists|k: int| occurs_at(metadata_inputs_html(fields), metadata_field_html(fields[i]), k),
{
    let blocks = fields.map_values(|f: Seq<char>| metadata_field_html(f));
    law_joined_holds_every_piece(blocks, field_separator(), i);
    assert(blocks[i] == metadata_field_html(fields[i]));
    let k = choose|k: int| occurs_at(joined(blocks, field_separator()), blocks[i], k);
    assert(occurs_at(metadata_inputs_html(fields), metadata_field_html(fields[i]), k));
}

/// Adding a metadata field adds its form field at the end of the metadata
/// form fields, after the separator; and the form fields are as long as all
/// the fields' form fields with a separator between each two.
pub proof fn law_metadata_inputs_grow_by_one_field(fields: Seq<Seq<char>>, f: Seq<char>)
    ensures
        fields.len() > 0 ==> metadata_inputs_html(fields.push(f)) == metadata_inputs_html(fields)
            + field_separator() + metadata_field_html(f),
        fields.len() > 0 ==> metadata_inputs_html(fields).len() == total_len(
            fields.map_values(|f: Seq<char>| metadata_field_html(f)),
        ) + (fields.len() - 1) * field_separator().len(),
{
    let blocks = fields.map_values(|f: Seq<char>| metadata_field_html(f));
    if fields.len() > 0 {
        assert(fields.push(f).map_values(|f: Seq<char>| metadata_field_html(f)) =~= blocks.push(
            metadata_field_html(f),
        ));
        law_joined_push(blocks, metadata_field_html(f), field_separator());
    }
    law_joined_len(blocks, field_separator());
}

/// The form field labels the field: `<label for="ID">ESC</label>`.
pub open spec fn label_part(id: Seq<char>, esc: Seq<char>) -> Seq<char> {
    "<label for=\""@ + id + "\">"@ + esc + "</label>"@
}

/// The form field's input is found, and submitted, under the identifier,
/// and shows the label as its placeholder:
/// ` id="ID" name="ID" placeholder="ESC">`.
pub open spec fn input_part(id: Seq<char>, esc: Seq<char>) -> Seq<char> {
    " id=\""@ + id + "\" name=\""@ + id + "\" placeholder=\""@ + esc + "\">"@
}

/// A form field is a `field` block that labels the field with its
/// identifier and escaped name, and whose text input carries the identifier
/// as its id and its name and the escaped name as its placeholder.
pub proof fn law_field_names_its_input(id: Seq<char>, esc: Seq<char>)
    ensures
        occurs_at(field_html(id, esc), label_part(id, esc), 30),
        occurs_at(field_html(id, esc), input_part(id, esc), (30 + label_part(id, esc).len() + 29) as int),
        occurs_at(field_html(id, esc), "<div class=\"field\">"@, 0),
        field_html(id, esc).subrange(field_html(id, esc).len() - 6, field_html(id, esc).len() as int)
            == "</div>"@,
{
    reveal_strlit("<div class=\"field\">\n          <label for=\"");
    reveal_strlit("\">");
    reveal_strlit("</label>\n          <input type=\"text\" id=\"");
    reveal_strlit("\" name=\"");
    reveal_strlit("\" placeholder=\"");
    reveal_strlit("\">\n        </div>");
    reveal_strlit("<label for=\"");
    reveal_strlit("</label>");
    reveal_strlit(" id=\"");
    reveal_strlit("<div class=\"field\">");
    reveal_strlit("</div>");
    let f = field_html(id, esc);
    let head = "<div class=\"field\">\n          "@;
    reveal_strlit("<div class=\"field\">\n          ");
    let lab = label_part(id, esc);
    let mid = "\n          <input type=\"text\""@;
    reveal_strlit("\n          <input type=\"text\"");
    let inp = input_part(id, esc);
    let tail = "\n        </div>"@;
    reveal_strlit("\n        </div>");
    assert(f =~= head + lab + (mid + inp + tail));
    lemma_occurs_in_middle(head, lab, mid + inp + tail);
    assert(f =~= (head + lab + mid) + inp + tail);
    lemma_occurs_in_middle(head + lab + mid, inp, tail);
    assert(f.subrange(0, 19) =~= "<div class=\"field\">"@);
    assert(f.subrange(f.len() - 6, f.len() as int) =~= "</div>"@);
}

/// Replacing at the first occurrence of `p` keeps everything before it and
/// everything after it, and puts `r` in its place.
pub proof fn law_replace_first_at(h: Seq<char>, p: Seq<char>, r: Seq<char>, i: int)
    requires
        is_first_occurrence(h, p, i),
    ensures
        replace_first(h, p, r) == h.subrange(0, i) + r + h.subrange(i + p.len(), h.len() as int),
{
    assert(occurs_at(h, p, i));
    let k = choose|k: int| is_first_occurrence(h, p, k);
    lemma_first_occurrence_unique(h, p, i, k);
}

/// Where `p` does not occur, nothing is replaced.
pub proof fn law_replace_first_without_occurrence(h: Seq<char>, p: Seq<char>, r: Seq<char>)
    requires
        forall|i: int| !#[trigger] occurs_at(h, p, i),
    ensures
        replace_first(h, p, r) == h,
{
}

proof fn lemma_occurs_shifted(x: Seq<char>, y: Seq<char>, z: Seq<char>, p: Seq<char>, k: int)
    requires
        occurs_at(y, p, k),
    ensures
        occurs_at(x + y + z, p, x.len() + k),
{
    assert((x + y + z).subrange(x.len() + k, x.len() + k + p.len()) =~= y.subrange(k, k + p.len()));
}

/// When the page has the date field, the page with metadata holds the form
/// field of each metadata field, right where the date field's block was.
pub proof fn law_page_holds_every_field(html: Seq<char>, fields: Seq<Seq<char>>, a: int, i: int)
    requires
        is_first_occurrence(html, metadata_anchor(), a),
        0 <= i < fields.len(),
    ensures
        with_metadata(html, fields) == html.subrange(0, a) + anchor_with_inputs(
            metadata_inputs_html(fields),
        ) + html.subrange(a + metadata_anchor().len(), html.len() as int),
        exists|k: int| occurs_at(with_metadata(html, fields), metadata_field_html(fields[i]), k),
{
    let inputs = metadata_inputs_html(fields);
    law_replace_first_at(html, metadata_anchor(), anchor_with_inputs(inputs), a);
    law_metadata_inputs_hold_every_field(fields, i);
    let k = choose|k: int| occurs_at(inputs, metadata_field_html(fields[i]), k);
    let open = "<input type=\"date\" id=\"date\" name=\"date\">\n        </div>\n        "@;
    let close = "\n      </div>"@;
    lemma_occurs_shifted(open, inputs, close, metadata_field_html(fields[i]), k);
    let with_inputs = open + inputs + close;
    let k2 = open.len() + k;
    let before = html.subrange(0, a);
    let after = html.subrange(a + metadata_anchor().len(), html.len() as int);
    lemma_occurs_shifted(before, with_inputs, after, metadata_field_html(fields[i]), k2);
    assert(occurs_at(with_metadata(html, fields), metadata_field_html(fields[i]), before.len() + k2));
}

} // verus!
