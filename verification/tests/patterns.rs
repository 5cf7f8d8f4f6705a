use zgcmaster::patterns::{check_pack_size, Pack};
use zgcmaster::Error;

fn pats(ps: &[(&str, &str)]) -> Vec<(String, String)> {
    ps.iter().map(|(n, r)| (n.to_string(), r.to_string())).collect()
}

#[test]
fn packs_are_bounded_named_and_compiled() {
    assert_eq!(check_pack_size(65537), Err(Error::RegexPackTooLarge));
    assert_eq!(check_pack_size(65536), Ok(()));
    assert!(matches!(Pack::build(1, &pats(&[("a", "x")]), &vec![b' '; 65537]), Err(Error::RegexPackTooLarge)));
    assert!(Pack::build(1, &pats(&[("a", "x")]), &vec![b' '; 65536]).is_ok());
    assert!(matches!(Pack::build(2, &pats(&[]), b""), Err(Error::RegexPackShape)));
    assert!(matches!(Pack::build(1, &pats(&[]), b""), Err(Error::RegexPackShape)));
    assert!(matches!(Pack::build(1, &pats(&[("a", "(?=x)")]), b""), Err(Error::RegexPackInvalid)));
    assert!(matches!(Pack::build(1, &pats(&[("a", "x"), ("a", "y")]), b""), Err(Error::RegexPackNames)));
    assert!(matches!(Pack::build(1, &pats(&[("not an id", "x")]), b""), Err(Error::RegexPackNames)));
    assert!(matches!(Pack::build(1, &pats(&[("a", "")]), b""), Err(Error::RegexPackNames)));
    let bytes = br#"{"version":1,"patterns":[{"name":"fatal","regex":"(?i)fatal"}]}"#;
    let pack = Pack::build(1, &pats(&[("fatal", "(?i)fatal")]), bytes).unwrap();
    assert_eq!(pack.matches("FATAL FATAL"), vec!["fatal".to_string()]);
    assert!(pack.matches("hello").is_empty());
    assert_eq!(pack.pattern_names(), &vec!["fatal".to_string()]);
    assert_eq!(pack.sha256().len(), 64);
}

#[test]
fn matches_report_each_pattern_once_in_pack_order() {
    let pack = Pack::build(1, &pats(&[("fatal", "FATAL"), ("marker", r"\{DEMO\}"), ("digits", "[0-9]+")]), b"x").unwrap();
    assert_eq!(pack.matches("{DEMO} FATAL 42 FATAL"), vec!["fatal".to_string(), "marker".to_string(), "digits".to_string()]);
    assert_eq!(pack.matches("{DEMO} synthetic"), vec!["marker".to_string()]);
}
