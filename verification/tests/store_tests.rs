use qams::csv::metadata_fields_from_csv;
use qams::store::{metadata_csv, KEPT_METADATA_FILE};

#[test]
fn kept_metadata_is_one_field_per_line() {
    let fields = vec!["Call ID".to_string(), "Channel".to_string()];
    assert_eq!(metadata_csv(&fields), "Call ID\nChannel\n");
    assert_eq!(metadata_csv(&vec![]), "");
    assert_eq!(KEPT_METADATA_FILE, "metadata.csv");
}

#[test]
fn kept_metadata_reads_back() {
    for csv in ["Call ID\nChannel\n", "  Région  , x\n,skipped\n\r\nQueue\r\n", "", " \n"] {
        let fields = metadata_fields_from_csv(csv);
        assert_eq!(metadata_fields_from_csv(&metadata_csv(&fields)), fields);
    }
}
