use barcode_tally::aux::{barcode_tag, extract_barcode, AuxError, AuxValue};
use barcode_tally::render::{push_line, render};
use barcode_tally::scan::{RecordItem, Scan};
use barcode_tally::tally::Tally;

fn tagged(id: &str) -> RecordItem {
    RecordItem::Decoded(Ok(AuxValue::Text(id.as_bytes().to_vec())))
}

fn untagged() -> RecordItem {
    RecordItem::Decoded(Err(AuxError::NotFound))
}

fn artifact_text(items: Vec<RecordItem>, limit: Option<usize>) -> String {
    let scan = Scan::run(items, limit);
    let t = scan.finish();
    String::from_utf8(render(&t)).unwrap()
}

#[test]
fn three_tagged_records_give_two_lines() {
    let items = vec![tagged("AAAA"), tagged("CCCC"), tagged("AAAA")];
    let scan = Scan::run(items, None);
    assert_eq!(scan.consumed(), 3);
    let t = scan.finish();
    assert_eq!(t.len(), 2);
    assert_eq!(t.total(), 3);
    assert_eq!(String::from_utf8(render(&t)).unwrap(), "      2 AAAA\n      1 CCCC\n");
}

#[test]
fn cap_of_one_reads_one_item() {
    let items = vec![tagged("A"), tagged("B"), RecordItem::Failed, untagged(), tagged("C")];
    let scan = Scan::run(items, Some(1));
    assert_eq!(scan.consumed(), 1);
    assert!(!scan.wants_more());
    let t = scan.finish();
    assert_eq!(t.total(), 1);
    assert_eq!(t.entries()[0].0, b"A".to_vec());
}

#[test]
fn cap_counts_decode_failures() {
    let items = vec![RecordItem::Failed, RecordItem::Failed, tagged("A")];
    let scan = Scan::run(items, Some(2));
    assert_eq!(scan.consumed(), 2);
    assert_eq!(scan.failures(), 2);
    assert_eq!(scan.finish().total(), 0);
}

#[test]
fn cap_at_least_source_length_changes_nothing() {
    let mk = || vec![tagged("GG"), untagged(), tagged("AA"), tagged("GG")];
    let all = artifact_text(mk(), None);
    assert_eq!(artifact_text(mk(), Some(4)), all);
    assert_eq!(artifact_text(mk(), Some(100)), all);
    assert_ne!(artifact_text(mk(), Some(3)), all);
}

#[test]
fn cap_of_zero_reads_nothing() {
    let scan = Scan::run(vec![tagged("A")], Some(0));
    assert_eq!(scan.consumed(), 0);
    assert_eq!(scan.finish().len(), 0);
}

#[test]
fn total_counts_only_tagged_records() {
    let items = vec![
        tagged("AC"),
        untagged(),
        RecordItem::Decoded(Ok(AuxValue::Integer(7))),
        RecordItem::Failed,
        tagged("AC"),
        tagged("TT"),
        RecordItem::Decoded(Err(AuxError::Malformed)),
    ];
    let scan = Scan::run(items, None);
    assert_eq!(scan.consumed(), 7);
    assert_eq!(scan.failures(), 1);
    let t = scan.finish();
    assert_eq!(t.total(), 3);
    assert_eq!(t.len(), 2);
}

#[test]
fn ordered_tally_is_strictly_ascending() {
    let items = vec![
        tagged("TTT"),
        tagged("A"),
        tagged("AAA"),
        tagged("aaa"),
        tagged("AA"),
        tagged("TTT"),
        tagged("C"),
    ];
    let t = Scan::run(items, None).finish();
    let keys: Vec<Vec<u8>> = t.entries().iter().map(|p| p.0.clone()).collect();
    assert_eq!(
        keys,
        vec![
            b"A".to_vec(),
            b"AA".to_vec(),
            b"AAA".to_vec(),
            b"C".to_vec(),
            b"TTT".to_vec(),
            b"aaa".to_vec()
        ]
    );
    for w in keys.windows(2) {
        assert!(w[0] < w[1]);
    }
}

#[test]
fn identifiers_are_case_sensitive() {
    let t = Scan::run(vec![tagged("acgt"), tagged("ACGT")], None).finish();
    assert_eq!(t.len(), 2);
    assert_eq!(t.entries()[0], (b"ACGT".to_vec(), 1));
    assert_eq!(t.entries()[1], (b"acgt".to_vec(), 1));
}

#[test]
fn reruns_give_identical_artifacts() {
    let mk = || vec![tagged("ZZ"), tagged("BB"), tagged("ZZ"), tagged("MM"), tagged("BB")];
    let first = artifact_text(mk(), Some(4));
    let second = artifact_text(mk(), Some(4));
    assert_eq!(first, second);
    assert_eq!(first, "      1 BB\n      1 MM\n      2 ZZ\n");
}

#[test]
fn missing_tag_gives_none() {
    assert_eq!(extract_barcode(Err(AuxError::NotFound)), None);
    assert_eq!(extract_barcode(Err(AuxError::Malformed)), None);
}

#[test]
fn wrong_value_type_gives_none() {
    assert_eq!(extract_barcode(Ok(AuxValue::Integer(12))), None);
    assert_eq!(extract_barcode(Ok(AuxValue::Char(b'A'))), None);
    assert_eq!(extract_barcode(Ok(AuxValue::Real)), None);
    assert_eq!(extract_barcode(Ok(AuxValue::HexBytes(b"1AE3".to_vec()))), None);
    assert_eq!(extract_barcode(Ok(AuxValue::Array)), None);
}

#[test]
fn string_value_is_returned_unchanged() {
    let v = b" AC-1 ".to_vec();
    assert_eq!(extract_barcode(Ok(AuxValue::Text(v.clone()))), Some(v));
}

#[test]
fn barcode_tag_is_cb() {
    assert_eq!(&barcode_tag(), b"CB");
}

#[test]
fn empty_stream_gives_empty_artifact() {
    let t = Scan::run(Vec::new(), None).finish();
    assert_eq!(t.len(), 0);
    assert_eq!(t.total(), 0);
    assert!(render(&t).is_empty());
}

#[test]
fn tally_counts_repeated_identifiers() {
    let mut t = Tally::new();
    t.observe(b"X".to_vec());
    t.observe(b"Y".to_vec());
    t.observe(b"X".to_vec());
    assert_eq!(t.observations(), 3);
    let o = t.finalize();
    assert_eq!(o.entries(), &vec![(b"X".to_vec(), 2), (b"Y".to_vec(), 1)]);
    assert_eq!(o.total(), 3);
}

#[test]
fn line_pads_count_to_seven_columns() {
    let mut out = Vec::new();
    push_line(&mut out, &b"AAAC".to_vec(), 0);
    push_line(&mut out, &b"B".to_vec(), 1234567);
    push_line(&mut out, &b"C".to_vec(), 12345678);
    assert_eq!(
        String::from_utf8(out).unwrap(),
        "      0 AAAC\n1234567 B\n12345678 C\n"
    );
}
