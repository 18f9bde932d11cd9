use omniprofile_gen::bruteforce::build_charset;
use omniprofile_gen::bruteforce::checked_pow_u128;
use omniprofile_gen::bruteforce::index_to_candidate;
use omniprofile_gen::bruteforce::plan_bruteforce;
use omniprofile_gen::bruteforce::validated_candidate;
use omniprofile_gen::bruteforce::ConfigError;
use omniprofile_gen::PasswordPolicy;

fn policy(min: usize, max: usize) -> PasswordPolicy {
    PasswordPolicy {
        min_length: min,
        max_length: max,
        require_upper: false,
        require_lower: false,
        require_numeric: false,
        require_symbol: false,
        mandatory_include: Vec::new(),
        exclude: Vec::new(),
    }
}

#[test]
fn bijection_on_two_letter_alphabet_length_three() {
    let charset = vec!['a', 'b'];
    let expected = ["aaa", "aab", "aba", "abb", "baa", "bab", "bba", "bbb"];
    let mut seen: Vec<String> = Vec::new();
    for i in 0..8u128 {
        let s = index_to_candidate(i, 3, &charset);
        assert_eq!(s, expected[i as usize]);
        assert_eq!(s.len(), 3);
        assert!(!seen.contains(&s));
        seen.push(s);
    }
}

#[test]
fn charset_follows_policy_flags() {
    let mut p = policy(1, 4);
    p.require_lower = true;
    p.require_numeric = true;
    let cs = build_charset(&p);
    let expected: Vec<char> = ('a'..='z').chain('0'..='9').collect();
    assert_eq!(cs, expected);
}

#[test]
fn charset_defaults_to_letters_and_digits_when_no_flag_is_set() {
    let p = policy(1, 4);
    let cs = build_charset(&p);
    let expected: Vec<char> = ('a'..='z').chain('A'..='Z').chain('0'..='9').collect();
    assert_eq!(cs, expected);
}

#[test]
fn charset_symbols_are_the_fixed_six() {
    let mut p = policy(1, 4);
    p.require_symbol = true;
    let cs = build_charset(&p);
    assert_eq!(cs, vec!['!', '@', '#', '$', '%', '&']);
}

#[test]
fn checked_pow_reports_overflow_instead_of_wrapping() {
    assert_eq!(checked_pow_u128(2, 127), Some(1u128 << 127));
    assert_eq!(checked_pow_u128(2, 128), None);
    assert_eq!(checked_pow_u128(26, 3), Some(17576));
    assert_eq!(checked_pow_u128(7, 0), Some(1));
}

#[test]
fn plan_rejects_inverted_bounds() {
    let p = policy(5, 3);
    let cs = build_charset(&p);
    assert_eq!(plan_bruteforce(&p, &cs, None), Err(ConfigError::InvertedBounds));
}

#[test]
fn plan_rejects_keyspace_overflow() {
    let mut p = policy(1, 200);
    p.require_lower = true;
    let cs = build_charset(&p);
    assert_eq!(plan_bruteforce(&p, &cs, None), Err(ConfigError::KeyspaceOverflow));
}

#[test]
fn plan_covers_every_length_with_uniform_resume_offset() {
    let mut p = policy(2, 4);
    p.require_lower = true;
    let cs = build_charset(&p);
    let plans = plan_bruteforce(&p, &cs, Some(7)).unwrap();
    assert_eq!(plans.len(), 3);
    assert_eq!(plans[0].length, 2);
    assert_eq!(plans[0].total, 26u128 * 26);
    assert_eq!(plans[0].start, 7);
    assert_eq!(plans[1].length, 3);
    assert_eq!(plans[1].total, 26u128 * 26 * 26);
    assert_eq!(plans[1].start, 7);
    assert_eq!(plans[2].length, 4);
    assert_eq!(plans[2].total, 26u128 * 26 * 26 * 26);
    assert_eq!(plans[2].start, 7);
}

#[test]
fn validated_candidate_applies_the_policy() {
    let mut p = policy(3, 3);
    p.require_lower = true;
    p.exclude = vec![String::from("aaa")];
    let cs = build_charset(&p);
    assert_eq!(validated_candidate(&p, &cs, 3, 0), None);
    assert_eq!(validated_candidate(&p, &cs, 3, 1), Some(String::from("aab")));
}

#[test]
fn every_sweep_candidate_has_the_swept_length_once() {
    let charset = vec!['x', 'y', 'z'];
    let mut seen: Vec<String> = Vec::new();
    for i in 0..27u128 {
        let s = index_to_candidate(i, 3, &charset);
        assert_eq!(s.chars().count(), 3);
        assert!(!seen.contains(&s));
        seen.push(s);
    }
}
