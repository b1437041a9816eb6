use qams::csv::{agents_from_csv, metadata_fields_from_csv, parse_csv_rows, AgentsError};

const AGENTS_CSV: &str = "Alice Nguyen,Team A\nBen Carter,Team B\nClara Singh,Team A\n";
const METADATA_CSV: &str = "Call ID\nChannel\n";

fn rows(v: &[&[&str]]) -> Vec<Vec<String>> {
    v.iter().map(|r| r.iter().map(|c| c.to_string()).collect()).collect()
}

#[test]
fn parses_agent_rows() {
    assert_eq!(
        parse_csv_rows(AGENTS_CSV),
        rows(&[
            &["Alice Nguyen", "Team A"],
            &["Ben Carter", "Team B"],
            &["Clara Singh", "Team A"],
        ])
    );
}

#[test]
fn skips_blank_lines_and_trims_cells() {
    assert_eq!(
        parse_csv_rows("\n  a , b ,c\n   \n\t\nd\n"),
        rows(&[&["a", "b", "c"], &["d"]])
    );
}

#[test]
fn handles_crlf_and_missing_final_newline() {
    assert_eq!(parse_csv_rows("x,y\r\nz\r"), rows(&[&["x", "y"], &["z"]]));
}

#[test]
fn keeps_empty_cells() {
    assert_eq!(parse_csv_rows("a,,b\n,"), rows(&[&["a", "", "b"], &["", ""]]));
}

#[test]
fn empty_text_has_no_rows() {
    assert_eq!(parse_csv_rows(""), rows(&[]));
    assert_eq!(parse_csv_rows("\n\n \r\n"), rows(&[]));
}

#[test]
fn unicode_whitespace_is_trimmed() {
    assert_eq!(parse_csv_rows("\u{3000}Zoë\u{a0},\u{2003}B"), rows(&[&["Zoë", "B"]]));
}

#[test]
fn empty_agents_is_error() {
    assert!(agents_from_csv("").is_err());
    assert_eq!(agents_from_csv(""), Err(AgentsError::NoRows));
    assert_eq!(agents_from_csv(" \n\n"), Err(AgentsError::NoRows));
}

#[test]
fn agents_are_read() {
    assert_eq!(agents_from_csv(AGENTS_CSV), Ok(parse_csv_rows(AGENTS_CSV)));
    assert_eq!(agents_from_csv("Dana Lee\n"), Ok(rows(&[&["Dana Lee"]])));
}

#[test]
fn agent_without_identifier_is_reported_by_row_number() {
    assert_eq!(
        agents_from_csv("Alice,Team A\n  ,Team B\n,Team C\n"),
        Err(AgentsError::EmptyIdentifier(2))
    );
    assert_eq!(agents_from_csv(",x"), Err(AgentsError::EmptyIdentifier(1)));
}

#[test]
fn agents_error_messages() {
    assert_eq!(AgentsError::NoRows.message(), "Agents CSV contains no rows");
    assert_eq!(
        AgentsError::EmptyIdentifier(12).message(),
        "Agent row 12 has an empty identifier"
    );
}

#[test]
fn metadata_fields_are_first_cells() {
    assert_eq!(
        metadata_fields_from_csv(METADATA_CSV),
        vec!["Call ID".to_string(), "Channel".to_string()]
    );
    assert_eq!(
        metadata_fields_from_csv("Region, extra\n, skipped\n\n  Queue  \n"),
        vec!["Region".to_string(), "Queue".to_string()]
    );
    assert_eq!(metadata_fields_from_csv(""), Vec::<String>::new());
}

#[test]
fn rows_of_joined_texts_are_the_rows_of_each() {
    let texts = ["", "a,b", "a,b\n", "x\r", " \n", "c\r\n\nd , e", "\n"];
    for a in texts {
        for b in texts {
            let mut expected = parse_csv_rows(a);
            expected.extend(parse_csv_rows(b));
            assert_eq!(parse_csv_rows(&format!("{a}\n{b}")), expected, "{a:?} / {b:?}");
        }
    }
}
