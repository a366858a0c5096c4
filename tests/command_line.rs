use barcode_tally::cli::{
    is_reference_based, parse_args, parse_limit, reference_plan, ReferencePlan, UsageError,
};

fn args(v: &[&str]) -> Vec<String> {
    v.iter().map(|s| s.to_string()).collect()
}

#[test]
fn reference_based_without_reference_proceeds() {
    assert_eq!(reference_plan("sample.cram", false), ReferencePlan::Discover);
}

#[test]
fn plain_input_with_reference_ignores_it() {
    assert_eq!(reference_plan("sample.bam", true), ReferencePlan::Ignore);
}

#[test]
fn reference_based_with_reference_binds_it() {
    assert_eq!(reference_plan("sample.cram", true), ReferencePlan::Bind);
    assert_eq!(reference_plan("sample.crai", true), ReferencePlan::Bind);
}

#[test]
fn plain_input_without_reference_needs_none() {
    assert_eq!(reference_plan("sample.bam", false), ReferencePlan::Unused);
}

#[test]
fn reference_based_is_judged_by_suffix() {
    assert!(is_reference_based("a/b.cram"));
    assert!(is_reference_based("x.crai"));
    assert!(!is_reference_based("x.cram.bam"));
    assert!(!is_reference_based("cram"));
    assert!(!is_reference_based(""));
    assert!(!is_reference_based("x.CRAM"));
}

#[test]
fn limit_values() {
    assert_eq!(parse_limit("5"), Some(5));
    assert_eq!(parse_limit("+12"), Some(12));
    assert_eq!(parse_limit("007"), Some(7));
    assert_eq!(parse_limit("0"), None);
    assert_eq!(parse_limit(""), None);
    assert_eq!(parse_limit("+"), None);
    assert_eq!(parse_limit("-3"), None);
    assert_eq!(parse_limit("1x"), None);
    assert_eq!(parse_limit("99999999999999999999999999"), None);
    assert_eq!(parse_limit(&usize::MAX.to_string()), Some(usize::MAX));
}

#[test]
fn input_only() {
    let o = parse_args(&args(&["in.bam"])).unwrap();
    assert_eq!(o.input, "in.bam");
    assert_eq!(o.reference, None);
    assert_eq!(o.limit, None);
}

#[test]
fn input_reference_and_cap() {
    let o = parse_args(&args(&["-n", "10", "in.cram", "ref.fa", "--limit", "20"])).unwrap();
    assert_eq!(o.input, "in.cram");
    assert_eq!(o.reference, Some("ref.fa".to_string()));
    assert_eq!(o.limit, Some(20));
}

#[test]
fn usage_errors() {
    assert_eq!(parse_args(&args(&[])).err(), Some(UsageError::MissingInput));
    assert_eq!(parse_args(&args(&["-n", "3"])).err(), Some(UsageError::MissingInput));
    assert_eq!(parse_args(&args(&["in.bam", "-n"])).err(), Some(UsageError::MissingLimitValue));
    assert_eq!(parse_args(&args(&["in.bam", "--limit", "ten"])).err(), Some(UsageError::InvalidLimit(2)));
    assert_eq!(parse_args(&args(&["in.bam", "-x"])).err(), Some(UsageError::UnknownFlag(1)));
    assert_eq!(parse_args(&args(&["a", "b", "c"])).err(), Some(UsageError::TooManyPositionals));
}
