use qams::html::{
    escape_html, field_html_with_id, id_char, metadata_field, metadata_inputs,
    replace_first_occurrence, sanitise_id, sanitise_lowercase, with_metadata_fields,
};

const DATE_BLOCK: &str =
    "<input type=\"date\" id=\"date\" name=\"date\">\n        </div>\n      </div>";

fn page() -> String {
    format!(
        "<form>\n      <div>\n        <div class=\"field\">\n          {}\n      <p>end</p>\n</form>",
        DATE_BLOCK
    )
}

#[test]
fn escapes_markup_characters() {
    assert_eq!(
        escape_html("<a href=\"x\">Tom & Jerry's</a>"),
        "&lt;a href=&quot;x&quot;&gt;Tom &amp; Jerry&#39;s&lt;/a&gt;"
    );
    assert_eq!(escape_html("plain text é"), "plain text é");
    assert_eq!(escape_html(""), "");
}

#[test]
fn identifiers_are_lowercase_and_underscored() {
    assert_eq!(sanitise_id("Call ID"), "call_id");
    assert_eq!(sanitise_id("Ticket-No. 7"), "ticket_no__7");
    assert_eq!(sanitise_id("ÜBER Straße"), "über_straße");
    assert_eq!(sanitise_id(""), "");
}

#[test]
fn sanitise_lowercase_keeps_case() {
    assert_eq!(sanitise_lowercase("Call ID"), "Call_ID");
    assert_eq!(id_char('x', true), 'x');
    assert_eq!(id_char('x', false), '_');
}

#[test]
fn builds_one_field() {
    assert_eq!(
        field_html_with_id("call_id", "Call <ID>"),
        "<div class=\"field\">\n          <label for=\"call_id\">Call &lt;ID&gt;</label>\n          <input type=\"text\" id=\"call_id\" name=\"call_id\" placeholder=\"Call &lt;ID&gt;\">\n        </div>"
    );
    assert_eq!(metadata_field("Call <ID>"), field_html_with_id("call__id_", "Call <ID>"));
}

#[test]
fn joins_fields() {
    let fields = vec!["Call ID".to_string(), "Channel".to_string()];
    let expected = format!(
        "{}\n        {}",
        metadata_field("Call ID"),
        metadata_field("Channel")
    );
    assert_eq!(metadata_inputs(&fields), expected);
    assert_eq!(metadata_inputs(&vec!["Only".to_string()]), metadata_field("Only"));
    assert_eq!(metadata_inputs(&vec![]), "");
}

#[test]
fn replaces_only_the_first_occurrence() {
    assert_eq!(replace_first_occurrence("abcabc", "bc", "X"), "aXabc");
    assert_eq!(replace_first_occurrence("abc", "zz", "X"), "abc");
    assert_eq!(replace_first_occurrence("aaa", "aa", "b"), "ba");
    assert_eq!(replace_first_occurrence("ab", "abc", "X"), "ab");
}

#[test]
fn metadata_fields_injected() {
    let fields = vec!["Call ID".to_string(), "Channel".to_string()];
    let html = with_metadata_fields(&page(), &fields);
    assert!(html.contains("call_id"), "'call_id' input missing");
    assert!(html.contains("Channel"), "'Channel' label missing");
    let expected = page().replacen(
        DATE_BLOCK,
        &format!(
            "<input type=\"date\" id=\"date\" name=\"date\">\n        </div>\n        {}\n      </div>",
            metadata_inputs(&fields)
        ),
        1,
    );
    assert_eq!(html, expected);
}

#[test]
fn no_metadata_keeps_page() {
    assert_eq!(with_metadata_fields(&page(), &vec![]), page());
    let fields = vec!["Call ID".to_string()];
    assert_eq!(with_metadata_fields("<p>no date</p>", &fields), "<p>no date</p>");
}

#[test]
fn metadata_goes_after_first_date_field_only() {
    let doubled = format!("{}|{}", DATE_BLOCK, DATE_BLOCK);
    let fields = vec!["Queue".to_string()];
    let html = with_metadata_fields(&doubled, &fields);
    assert!(html.ends_with(&format!("|{}", DATE_BLOCK)));
    assert_eq!(html.matches("id=\"queue\"").count(), 1);
}

#[test]
fn different_texts_escape_differently() {
    let texts = ["&", "&amp;", "<", "&lt;", "'", "&#39;", "\"", "&quot;", ">", "&gt;", "a;", ""];
    for a in texts {
        for b in texts {
            assert_eq!(escape_html(a) == escape_html(b), a == b, "{a:?} / {b:?}");
        }
    }
}
