use pii_masker::category::Category;
use pii_masker::error::MaskerError;
use pii_masker::masker::{
    annotations_from_matches, apply_to_fixture, expectations_from_matches, lookup_faker_for_field,
    mask_tests, mask_with_pool, synthesize_replacement, Annotation, Expectation, MaskerMatch,
    MaskerNode,
};
use pii_masker::similarity::FakeWordPool;

fn row(words: &[&str]) -> Vec<String> {
    words.iter().map(|w| w.to_string()).collect()
}

fn fixed_pool() -> FakeWordPool {
    vec![
        (Category::Name, row(&["Ada Lovelace"])),
        (Category::FirstName, row(&["Johan", "Mary"])),
        (Category::LastName, row(&["Dow", "Smith"])),
        (Category::Email, row(&["jane@example.com"])),
        (Category::Address, row(&["12 Main St"])),
        (Category::Ssn, row(&["987-65-4321"])),
        (Category::City, row(&["Oslo"])),
        (Category::PhoneNumber, row(&["212-555-0199"])),
        (Category::CreditCard, row(&["4111111111111111"])),
        (Category::ZipCode, row(&["90210"])),
        (Category::PositiveDecimal, row(&["1234.56"])),
    ]
}

fn node(text: &str, start: usize) -> MaskerNode {
    MaskerNode { text: text.to_string(), start, end: start + text.chars().count() }
}

fn bind(pairs: Vec<(&str, MaskerNode)>) -> MaskerMatch {
    MaskerMatch { env: pairs.into_iter().map(|(n, v)| (n.to_string(), v)).collect() }
}

fn ann(s: &str, f: &str, k: &str) -> Annotation {
    Annotation::new(s.to_string(), f.to_string(), k.to_string(), None)
}

/// The expectation for the first occurrence of `literal` (quotes included).
fn expect_in(source: &str, s: &str, f: &str, literal: &str) -> Expectation {
    let start = source.find(literal).unwrap();
    Expectation::new(
        s.to_string(),
        f.to_string(),
        literal.replace('"', ""),
        start,
        start + literal.len(),
    )
}

const STUDENT_SOURCE: &str = r#"#[derive(Debug,PIIMask)]
struct Student {
    #[pii_mask(first_name)]
    first_name: String,
    #[pii_mask(last_name)]
    last_name: String,
    #[pii_mask(ssn)]
    ssn: String,
    #[pii_mask(inferred)]
    mobile: String
}

#[cfg(test)]
mod tests {
  user super::*;

  #[test]
  fn test_lookup_student() {
    let expected_student = Student {
        first_name: "John",
        last_name: "Doe",
        ssn: "123-45-6789",
        mobile: "310-333-2132"
    };

    assert_eq!(find_student(100), expected_student);

  }
}
"#;

fn student_inputs(source: &str) -> (Vec<Annotation>, Vec<Expectation>) {
    let anns = vec![
        ann("Student", "first_name", "first_name"),
        ann("Student", "last_name", "last_name"),
        ann("Student", "ssn", "ssn"),
        ann("Student", "mobile", "inferred"),
    ];
    let exps = vec![
        expect_in(source, "Student", "first_name", "\"John\""),
        expect_in(source, "Student", "last_name", "\"Doe\""),
        expect_in(source, "Student", "ssn", "\"123-45-6789\""),
        expect_in(source, "Student", "mobile", "\"310-333-2132\""),
    ];
    (anns, exps)
}

#[test]
fn test_lookup_student() {
    let fixture = "\nstudent:\n  first_name: John\n  last_name: Doe\n  ssn: 123-45-6789\n  mobile: 310-333-2132\n";
    let (anns, exps) = student_inputs(STUDENT_SOURCE);
    let (src, fix) = mask_with_pool(STUDENT_SOURCE, fixture, &anns, &exps, &fixed_pool()).unwrap();
    for v in ["\"John\"", "\"Doe\"", "123-45-6789", "310-333-2132"] {
        assert!(!src.contains(v), "{} left in source", v);
        assert!(!fix.contains(v), "{} left in fixture", v);
    }
    assert!(src.contains("find_student(100)"));
    assert!(src.contains("first_name: \"Joha\""));
    assert!(src.contains("last_name: \"Dow\""));
    assert!(src.contains("ssn: \"987-65-4321\""));
    assert_eq!(src.len(), STUDENT_SOURCE.len());
    // Every character outside the literals is unchanged.
    let spans: Vec<(usize, usize)> = exps.iter().map(|e| (e.start, e.end)).collect();
    for (i, (a, b)) in STUDENT_SOURCE.chars().zip(src.chars()).enumerate() {
        if !spans.iter().any(|(s, e)| *s <= i && i < *e) {
            assert_eq!(a, b, "changed at {}", i);
        }
    }
    assert_eq!(
        fix,
        "\nstudent:\n  first_name: Joha\n  last_name: Dow\n  ssn: 987-65-4321\n  mobile: 212-555-0199\n"
    );
}

#[test]
fn test_mask_tests() {
    let source = r#"
#[derive(Debug,PIIMask)]
struct Student {
    #[pii_mask(faker="first_name")]
    first_name: String,
    #[pii_mask(faker="last_name")]
    last_name: String,
    #[pii_mask(faker="ssn")]
    ssn: String,
    #[pii_mask(faker="inferred")]
    mobile: String
}

#[cfg(test)]
mod tests {
  user super::*;

  #[test]
  fn test_lookup_student() {
    let expected_student = Student {
        first_name: "John",
        last_name: "Doe",
        ssn: "123-45-6789",
        mobile: "310-444-2211"
    };

    assert_eq!(find_student(100), expected_student);

  }
}
"#;
    let fixture = r#"
student:
  first_name: John
  last_name: Doe
  ssn: 123-45-6789
  mobile: 310-444-2211
"#;
    let anns = vec![
        ann("Student", "first_name", "first_name"),
        ann("Student", "last_name", "last_name"),
        ann("Student", "ssn", "ssn"),
        ann("Student", "mobile", "inferred"),
    ];
    let exps = vec![
        expect_in(source, "Student", "first_name", "\"John\""),
        expect_in(source, "Student", "last_name", "\"Doe\""),
        expect_in(source, "Student", "ssn", "\"123-45-6789\""),
        expect_in(source, "Student", "mobile", "\"310-444-2211\""),
    ];
    let masked = mask_tests(source, fixture, &anns, &exps, 10000);
    assert_eq!(masked.is_ok(), true);
    assert_eq!(masked.as_ref().unwrap().0.contains("John"), false);
    assert_eq!(masked.as_ref().unwrap().0.contains("Doe"), false);
    assert_eq!(masked.as_ref().unwrap().0.contains("123-45-6789"), false);
    assert_eq!(masked.as_ref().unwrap().0.contains("310-444-2211"), false);
}

#[test]
fn unannotated_literal_is_left_alone() {
    let source = "fn test_a() { let s = S { name: \"Zed\", code: \"Q1\" }; }";
    let fixture = "name: Zed\ncode: Q1\n";
    let anns = vec![ann("S", "name", "first_name")];
    let exps = vec![
        expect_in(source, "S", "name", "\"Zed\""),
        expect_in(source, "S", "code", "\"Q1\""),
    ];
    let (src, fix) = mask_with_pool(source, fixture, &anns, &exps, &fixed_pool()).unwrap();
    assert_eq!(src, "fn test_a() { let s = S { name: \"Joh\", code: \"Q1\" }; }");
    assert_eq!(fix, "name: Joh\ncode: Q1\n");
    let (src2, fix2) = mask_with_pool(source, fixture, &Vec::new(), &exps, &fixed_pool()).unwrap();
    assert_eq!(src2, source);
    assert_eq!(fix2, fixture);
}

#[test]
fn unknown_category_token_is_an_error() {
    let source = "let s = S { name: \"Zed\" };";
    let anns = vec![ann("S", "name", "nickname")];
    let exps = vec![expect_in(source, "S", "name", "\"Zed\"")];
    let r = mask_with_pool(source, "", &anns, &exps, &fixed_pool());
    assert!(matches!(r, Err(MaskerError::SimilarityError(_))));
}

#[test]
fn integer_literal_is_requoted() {
    let source = "let z = Z { zip: 12345, other: 1 };";
    let anns = vec![ann("Z", "zip", "zip_code")];
    let exps = vec![expect_in(source, "Z", "zip", "12345")];
    let (src, fix) = mask_with_pool(source, "zip: 12345", &anns, &exps, &fixed_pool()).unwrap();
    assert_eq!(src, "let z = Z { zip: \"90210\", other: 1 };");
    assert_eq!(fix, "zip: 90210");
}

#[test]
fn masked_value_keeps_length_and_differs() {
    let pool = fixed_pool();
    let m = synthesize_replacement("John", Category::FirstName, &pool).unwrap();
    assert_eq!(m, "Joha");
    assert_ne!(m, "John");
    let short = synthesize_replacement("Doe", Category::LastName, &pool).unwrap();
    assert_eq!(short, "Dow");
    let padded = synthesize_replacement("Oslo-Nord", Category::City, &pool).unwrap();
    assert_eq!(padded, "Oslo     ");
    let blank = synthesize_replacement("   ", Category::City, &pool).unwrap();
    assert_eq!(blank, "Osl");
    let empty = synthesize_replacement("", Category::City, &pool).unwrap();
    assert_eq!(empty, "");
}

#[test]
fn synthesis_fails_without_samples() {
    let pool: FakeWordPool = vec![(Category::City, row(&["Oslo"]))];
    assert!(matches!(
        synthesize_replacement("Oslo", Category::City, &pool),
        Err(MaskerError::SimilarityError(_))
    ));
}

#[test]
fn fixture_substitution() {
    assert_eq!(apply_to_fixture("a: John\nb: John\n", "John", "Mary"), "a: Mary\nb: Mary\n");
    assert_eq!(apply_to_fixture("x (y", "(", "z"), "x (y");
    assert_eq!(apply_to_fixture("a.c abc", "a.c", "Q"), "Q Q");
}

#[test]
fn lookup_takes_first_annotation() {
    let anns = vec![ann("S", "f", "ssn"), ann("S", "f", "email"), ann("T", "g", "city")];
    assert_eq!(lookup_faker_for_field("S", "f", &anns), Some("ssn".to_string()));
    assert_eq!(lookup_faker_for_field("T", "g", &anns), Some("city".to_string()));
    assert_eq!(lookup_faker_for_field("T", "f", &anns), None);
}

#[test]
fn matches_become_annotations_and_expectations() {
    let ms = vec![
        bind(vec![
            ("STRUCT", node("Student", 10)),
            ("FIELD", node("ssn", 30)),
            ("FAKER", node("\"ssn\"", 20)),
        ]),
        bind(vec![("STRUCT", node("Student", 10)), ("FIELD", node("name", 40))]),
    ];
    let anns = annotations_from_matches(&ms);
    assert_eq!(anns.len(), 1);
    assert_eq!(anns[0].struct_name, "Student");
    assert_eq!(anns[0].field, "ssn");
    assert_eq!(anns[0].faker, "ssn");
    assert!(anns[0].format.is_none());

    let es = vec![
        bind(vec![
            ("VALUE", node("\"123-45-6789\"", 50)),
            ("STRUCT", node("Student", 10)),
            ("FIELD", node("ssn", 44)),
        ]),
        bind(vec![("VALUE", node("7", 60)), ("FIELD", node("ssn", 44))]),
    ];
    let exps = expectations_from_matches(&es);
    assert_eq!(exps.len(), 1);
    assert_eq!(exps[0].value, "123-45-6789");
    assert_eq!(exps[0].struct_name, "Student");
    assert_eq!(exps[0].field, "ssn");
    assert_eq!((exps[0].start, exps[0].end), (50, 63));
}

#[test]
fn span_order_is_checked() {
    let source = "let s = S { a: \"x\", b: \"y\" };";
    let ordered = vec![
        expect_in(source, "S", "a", "\"x\""),
        expect_in(source, "S", "b", "\"y\""),
    ];
    assert!(pii_masker::masker::check_spans(source, &ordered));
    let reversed = vec![
        expect_in(source, "S", "b", "\"y\""),
        expect_in(source, "S", "a", "\"x\""),
    ];
    assert!(!pii_masker::masker::check_spans(source, &reversed));
    let outside = vec![Expectation::new("S".to_string(), "a".to_string(), "x".to_string(), 20, 99)];
    assert!(!pii_masker::masker::check_spans(source, &outside));
    assert!(pii_masker::masker::check_spans(source, &Vec::new()));
}
