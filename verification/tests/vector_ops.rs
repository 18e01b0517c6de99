use anagrams::vector::Comparison;
use anagrams::vector::Occurrences;

#[test]
fn null_is_zero() {
    let z = Occurrences::null();
    assert!(z.is_zero());
    assert!(z.is_non_negative());
}

#[test]
fn from_string_counts_letters() {
    let v = Occurrences::from_string("ABBA");
    let w = Occurrences::from_string("AABB");
    assert_eq!(v.compare(&w), Comparison::Equal);
    assert!(!v.is_zero());
}

#[test]
fn from_string_folds_case() {
    let lower = Occurrences::from_string("cat");
    let upper = Occurrences::from_string("CAT");
    let mixed = Occurrences::from_string("cAt");
    assert_eq!(lower.compare(&upper), Comparison::Equal);
    assert_eq!(lower.compare(&mixed), Comparison::Equal);
}

#[test]
fn from_string_ignores_non_letters() {
    let v = Occurrences::from_string("a1b!c ");
    let w = Occurrences::from_string("abc");
    assert_eq!(v.compare(&w), Comparison::Equal);
    assert!(Occurrences::from_string("123").is_zero());
    assert!(Occurrences::from_string("").is_zero());
}

#[test]
fn subtract_self_cancels() {
    let v = Occurrences::from_string("HELLO");
    assert!(v.sub(v).is_zero());
    let z = Occurrences::null();
    assert!(z.sub(z).is_zero());
}

#[test]
fn subtract_contained_stays_non_negative() {
    let a = Occurrences::from_string("AB");
    let b = Occurrences::from_string("AABC");
    assert!(a.less_or_equal(&b));
    assert!(b.sub(a).is_non_negative());
}

#[test]
fn add_is_pointwise_sum() {
    let a = Occurrences::from_string("AB");
    let b = Occurrences::from_string("BC");
    let sum = a.add(b);
    assert_eq!(sum.compare(&Occurrences::from_string("ABBC")), Comparison::Equal);
}

#[test]
fn sub_assign_matches_sub() {
    let a = Occurrences::from_string("AABB");
    let b = Occurrences::from_string("AB");
    let mut c = a;
    c.sub_assign(b);
    assert_eq!(c.compare(&a.sub(b)), Comparison::Equal);
    assert_eq!(c.compare(&b), Comparison::Equal);
}

#[test]
fn order_is_reflexive() {
    let a = Occurrences::from_string("WORD");
    assert!(a.less_or_equal(&a));
    assert_eq!(a.compare(&a), Comparison::Equal);
}

#[test]
fn order_is_antisymmetric() {
    let a = Occurrences::from_string("AB");
    let b = Occurrences::from_string("BA");
    assert!(a.less_or_equal(&b));
    assert!(b.less_or_equal(&a));
    assert_eq!(a, b);
}

#[test]
fn order_is_transitive() {
    let a = Occurrences::from_string("A");
    let b = Occurrences::from_string("AB");
    let c = Occurrences::from_string("ABC");
    assert!(a.less_or_equal(&b));
    assert!(b.less_or_equal(&c));
    assert!(a.less_or_equal(&c));
}

#[test]
fn order_is_not_total() {
    let a = Occurrences::from_string("AB");
    let b = Occurrences::from_string("BC");
    assert!(!a.less_or_equal(&b));
    assert!(!b.less_or_equal(&a));
    assert_eq!(a.compare(&b), Comparison::Incomparable);
}

#[test]
fn compare_reports_strict_containment() {
    let a = Occurrences::from_string("A");
    let b = Occurrences::from_string("AB");
    assert_eq!(a.compare(&b), Comparison::Less);
    assert_eq!(b.compare(&a), Comparison::Greater);
    assert_eq!(Occurrences::null().compare(&a), Comparison::Less);
}
