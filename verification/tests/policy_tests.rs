use omniprofile_gen::validate;
use omniprofile_gen::PasswordPolicy;

fn policy(min: usize, max: usize) -> PasswordPolicy {
    PasswordPolicy {
        min_length: min,
        max_length: max,
        require_upper: false,
        require_lower: false,
        require_numeric: false,
        require_symbol: false,
        mandatory_include: Vec::new(),
        exclude: Vec::new(),
    }
}

#[test]
fn policy_gating_rejects_excluded_and_accepts_qualifying() {
    let mut p = policy(6, 10);
    p.require_numeric = true;
    p.exclude = vec![String::from("admin")];
    assert!(!validate("adminx01", &p));
    assert!(validate("rocket01", &p));
}

#[test]
fn empty_string_fails_length_check() {
    let p = policy(1, 10);
    assert!(!validate("", &p));
    let zero = policy(0, 10);
    assert!(validate("", &zero));
}

#[test]
fn length_bounds_are_inclusive() {
    let p = policy(3, 5);
    assert!(!validate("ab", &p));
    assert!(validate("abc", &p));
    assert!(validate("abcde", &p));
    assert!(!validate("abcdef", &p));
}

#[test]
fn required_character_classes_are_each_enforced() {
    let mut p = policy(1, 20);
    p.require_upper = true;
    assert!(!validate("abc1!", &p));
    assert!(validate("Abc1!", &p));

    let mut p = policy(1, 20);
    p.require_lower = true;
    assert!(!validate("ABC1!", &p));
    assert!(validate("ABc1!", &p));

    let mut p = policy(1, 20);
    p.require_numeric = true;
    assert!(!validate("Abcd!", &p));
    assert!(validate("Abc1!", &p));

    let mut p = policy(1, 20);
    p.require_symbol = true;
    assert!(!validate("Abc19", &p));
    assert!(validate("Abc1!", &p));
}

#[test]
fn mandatory_includes_must_all_occur() {
    let mut p = policy(1, 30);
    p.mandatory_include = vec![String::from("foo"), String::from("bar")];
    assert!(validate("xxfooyybarzz", &p));
    assert!(!validate("xxfooyyzz", &p));
    assert!(!validate("xxbaryyzz", &p));
}

#[test]
fn any_exclude_occurrence_rejects() {
    let mut p = policy(1, 30);
    p.exclude = vec![String::from("bad"), String::from("worse")];
    assert!(validate("goodenough", &p));
    assert!(!validate("xbady", &p));
    assert!(!validate("aworseb", &p));
}

#[test]
fn inverted_bounds_reject_everything() {
    let p = policy(10, 5);
    assert!(!validate("abcdefg", &p));
    assert!(!validate("", &p));
}
