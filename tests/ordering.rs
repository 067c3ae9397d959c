use std::cmp::Ordering;
use version_sort::laws::{
    check_order_laws, test_antisymmetry, test_reflexivity, test_transitivity, LawViolation,
};
use version_sort::segment::{compare_part, is_trivial, Segment};
use version_sort::sort::sort_versions;
use version_sort::version::{compare_versions, parse_version, Version};

fn parse(s: &str) -> Version {
    parse_version(s).expect("a valid version")
}

fn text(s: &str) -> Segment {
    Segment::Text(s.to_string())
}

fn cmp(a: &str, b: &str) -> Ordering {
    compare_versions(&parse(a), &parse(b))
}

fn sorted_strings(input: &[&str]) -> Vec<String> {
    let versions: Vec<Version> = input.iter().map(|s| parse(s)).collect();
    sort_versions(versions).iter().map(|v| v.as_str().to_string()).collect()
}

#[test]
fn segment_comparison_mirrors() {
    let segs = vec![
        Segment::Number(0),
        Segment::Number(7),
        Segment::Number(12),
        text(""),
        text("alpha"),
        text("Beta"),
        text("beta"),
    ];
    for a in &segs {
        for b in &segs {
            assert_eq!(compare_part(a, b), compare_part(b, a).reverse());
        }
    }
}

#[test]
fn numbers_compare_by_value() {
    assert_eq!(compare_part(&Segment::Number(2), &Segment::Number(10)), Ordering::Less);
    assert_eq!(compare_part(&Segment::Number(10), &Segment::Number(2)), Ordering::Greater);
    assert_eq!(compare_part(&Segment::Number(5), &Segment::Number(5)), Ordering::Equal);
}

#[test]
fn leading_zeros_do_not_count() {
    assert_eq!(parse("1.01").segments, vec![Segment::Number(1), Segment::Number(1)]);
    assert_eq!(cmp("1.01", "1.1"), Ordering::Equal);
    assert_eq!(cmp("1.002", "1.10"), Ordering::Less);
}

#[test]
fn text_is_case_insensitive() {
    assert_eq!(compare_part(&text("ABC"), &text("abc")), Ordering::Equal);
    assert_eq!(compare_part(&text("abc"), &text("ABD")), Ordering::Less);
    assert_eq!(compare_part(&text("Zeta"), &text("alpha")), Ordering::Greater);
}

#[test]
fn text_order_is_lexicographic() {
    assert_eq!(compare_part(&text("ab"), &text("abc")), Ordering::Less);
    assert_eq!(compare_part(&text("b"), &text("abc")), Ordering::Greater);
    assert_eq!(compare_part(&text(""), &text("a")), Ordering::Less);
    assert_eq!(compare_part(&text(""), &text("")), Ordering::Equal);
}

#[test]
fn numbers_before_text() {
    assert_eq!(compare_part(&Segment::Number(0), &text("")), Ordering::Less);
    assert_eq!(compare_part(&Segment::Number(999), &text("a")), Ordering::Less);
    assert_eq!(compare_part(&text(""), &Segment::Number(0)), Ordering::Greater);
}

#[test]
fn trivial_segments() {
    assert!(is_trivial(&Segment::Number(0)));
    assert!(is_trivial(&text("")));
    assert!(!is_trivial(&Segment::Number(1)));
    assert!(!is_trivial(&text("a")));
}

#[test]
fn trailing_trivial_rule() {
    assert_eq!(cmp("1.0.0", "1.0"), Ordering::Equal);
    assert_eq!(cmp("1.2", "1.2.3"), Ordering::Less);
    assert_eq!(cmp("1.2.0", "1.2"), Ordering::Equal);
    assert_eq!(cmp("1.2.3", "1.2"), Ordering::Greater);
    assert_eq!(cmp("1.2", "1.2.0.0.1"), Ordering::Less);
}

#[test]
fn trailing_empty_text_is_trivial() {
    let a = Version::new("1".to_string(), vec![Segment::Number(1)]);
    let b = Version::new("1-".to_string(), vec![Segment::Number(1), text("")]);
    assert_eq!(compare_versions(&a, &b), Ordering::Equal);
    assert_eq!(compare_versions(&b, &a), Ordering::Equal);
}

#[test]
fn empty_versions() {
    let e = Version::new(String::new(), vec![]);
    let zeros = Version::new("0.0".to_string(), vec![Segment::Number(0), Segment::Number(0)]);
    assert_eq!(compare_versions(&e, &e), Ordering::Equal);
    assert_eq!(compare_versions(&zeros, &e), Ordering::Equal);
    assert_eq!(compare_versions(&e, &zeros), Ordering::Equal);
    assert_eq!(cmp("1", "0.1"), Ordering::Greater);
}

#[test]
fn case_insensitive_versions() {
    assert_eq!(cmp("1.0-Beta", "1.0-beta"), Ordering::Equal);
    assert_eq!(cmp("1.0-alpha", "1.0-BETA"), Ordering::Less);
}

#[test]
fn text_after_numbers_in_versions() {
    assert_eq!(cmp("1.0.beta", "1.0.1"), Ordering::Greater);
    assert_eq!(cmp("1.0-rc1", "1.0"), Ordering::Greater);
}

#[test]
fn parse_segments() {
    let v = parse("2.0.0-Beta");
    assert_eq!(v.as_str(), "2.0.0-Beta");
    assert_eq!(
        v.segments,
        vec![Segment::Number(2), Segment::Number(0), Segment::Number(0), text("Beta")]
    );
}

#[test]
fn parse_rejects_text_only() {
    assert!(parse_version("abc").is_none());
}

fn sample() -> Vec<Version> {
    ["1.0", "1.0.0", "1.2", "1.2.3", "1.0-beta", "1.0-Beta", "2.0.0", "1.10.0", "0.9", "1.5.3"]
        .iter()
        .map(|s| parse(s))
        .collect()
}

#[test]
fn reflexivity_holds() {
    assert_eq!(test_reflexivity(&sample()), None);
    for v in &sample() {
        assert_eq!(compare_versions(v, v), Ordering::Equal);
    }
}

#[test]
fn antisymmetry_holds() {
    assert_eq!(test_antisymmetry(&sample()), None);
}

#[test]
fn transitivity_holds() {
    assert_eq!(test_transitivity(&sample()), None);
    assert!(check_order_laws(&sample()).is_ok());
}

#[test]
fn transitivity_breaks_with_empty_text() {
    let vs = vec![
        Version::new("0".to_string(), vec![Segment::Number(0)]),
        Version::new(String::new(), vec![]),
        Version::new("-".to_string(), vec![text("")]),
    ];
    assert_eq!(test_reflexivity(&vs), None);
    assert_eq!(test_antisymmetry(&vs), None);
    assert_eq!(test_transitivity(&vs), Some((0, 1, 2)));
    assert!(matches!(check_order_laws(&vs), Err(LawViolation::Transitivity(0, 1, 2))));
}

#[test]
fn sort_orders_numerically() {
    let out = sorted_strings(&["2.0.0", "1.5.3", "1.5.3.0", "1.10.0"]);
    let mut tied = vec![out[0].clone(), out[1].clone()];
    tied.sort();
    assert_eq!(tied, vec!["1.5.3".to_string(), "1.5.3.0".to_string()]);
    assert_eq!(out[2], "1.10.0");
    assert_eq!(out[3], "2.0.0");
}

#[test]
fn sort_is_stable() {
    let out = sorted_strings(&["1.5.3.0", "2", "1.5.3"]);
    assert_eq!(out, vec!["1.5.3.0", "1.5.3", "2"]);
}

#[test]
fn sort_is_idempotent() {
    let once = sorted_strings(&["3.1", "1.0-beta", "1.0", "1.0.0", "0.9", "1.0-Beta"]);
    let refs: Vec<&str> = once.iter().map(|s| s.as_str()).collect();
    let twice = sorted_strings(&refs);
    assert_eq!(once, twice);
    assert_eq!(once, vec!["0.9", "1.0", "1.0.0", "1.0-beta", "1.0-Beta", "3.1"]);
}

#[test]
fn sort_empty() {
    assert!(sort_versions(vec![]).is_empty());
}
