use omniprofile_gen::categories::dedup_clean;
use omniprofile_gen::categories::derive_date_fragments;
use omniprofile_gen::categories::Category;
use omniprofile_gen::generate;
use omniprofile_gen::mutation::expand_sequence;
use omniprofile_gen::mutation::segment_case_combinations;
use omniprofile_gen::mutation::transform_word;
use omniprofile_gen::segments::cross_categories_segments;
use omniprofile_gen::transform::case_variants;
use omniprofile_gen::transform::leet_layer;
use omniprofile_gen::transform::numeric_layer;
use omniprofile_gen::transform::symbol_layer;
use omniprofile_gen::Chronology;
use omniprofile_gen::Culture;
use omniprofile_gen::Geography;
use omniprofile_gen::Identity;
use omniprofile_gen::PasswordPolicy;
use omniprofile_gen::Persona;
use omniprofile_gen::Personal;
use omniprofile_gen::Professional;

fn policy(min: usize, max: usize) -> PasswordPolicy {
    PasswordPolicy {
        min_length: min,
        max_length: max,
        require_upper: false,
        require_lower: false,
        require_numeric: false,
        require_symbol: false,
        mandatory_include: Vec::new(),
        exclude: Vec::new(),
    }
}

fn strings(items: &[&str]) -> Vec<String> {
    items.iter().map(|s| String::from(*s)).collect()
}

fn empty_persona(policy: PasswordPolicy) -> Persona {
    Persona {
        identity: Identity {
            full_name: String::new(),
            nicknames: Vec::new(),
            spouse: Vec::new(),
            children: Vec::new(),
            pets: Vec::new(),
            maiden_names: Vec::new(),
        },
        chronology: Chronology {
            birthdates: Vec::new(),
            anniversaries: Vec::new(),
            graduation_years: Vec::new(),
            employment_start: Vec::new(),
        },
        geography: Geography {
            birth_city: Vec::new(),
            current_city: Vec::new(),
            streets: Vec::new(),
            vacation_spots: Vec::new(),
        },
        professional: Professional {
            current_company: Vec::new(),
            previous_employers: Vec::new(),
            departments: Vec::new(),
            projects: Vec::new(),
            host_naming: Vec::new(),
        },
        personal: Personal {
            sports_teams: Vec::new(),
            bands: Vec::new(),
            hobbies: Vec::new(),
            cars: Vec::new(),
        },
        culture: Culture { slang: Vec::new(), keyboard_layout: String::from("qwerty") },
        policy,
        output_file: String::from("out.txt"),
    }
}

#[test]
fn collect_categories_splits_the_name_and_drops_empty_groups() {
    let mut p = empty_persona(policy(1, 10));
    p.identity.full_name = String::from("  Ana  Lee ");
    p.personal.cars = strings(&["vw", " vw", "kia"]);
    let cats = omniprofile_gen::categories::collect_categories(&p);
    assert_eq!(cats.len(), 2);
    assert_eq!(cats[0].values, strings(&["Ana", "Lee"]));
    assert_eq!(cats[1].values, strings(&["kia", "vw"]));
}

#[test]
fn depth_scaling_two_categories_normal_mode() {
    let cats = vec![
        Category { values: strings(&["aa", "bb"]) },
        Category { values: strings(&["xx", "yy", "zz"]) },
    ];
    let seqs = cross_categories_segments(&cats, false);
    assert_eq!(seqs.len(), 5 + 25 + 125);
}

#[test]
fn depth_scaling_aggressive_mode_adds_a_level() {
    let cats = vec![Category { values: strings(&["a", "b"]) }];
    assert_eq!(cross_categories_segments(&cats, false).len(), 2 + 4 + 8);
    assert_eq!(cross_categories_segments(&cats, true).len(), 2 + 4 + 8 + 16);
}

#[test]
fn depth_scaling_counts_shared_values_per_category() {
    let cats = vec![
        Category { values: strings(&["a"]) },
        Category { values: strings(&["a"]) },
    ];
    let seqs = cross_categories_segments(&cats, false);
    assert_eq!(seqs.len(), 2 + 4 + 8);
}

#[test]
fn aggressive_mode_adds_reversed_case_variants_to_the_output() {
    let mut p = empty_persona(policy(2, 2));
    p.identity.full_name = String::from("ab");
    let normal = generate(&p, false);
    let aggressive = generate(&p, true);
    assert!(!normal.contains(&String::from("ba")));
    assert!(aggressive.contains(&String::from("ba")));
}

#[test]
fn dedup_clean_trims_drops_empties_sorts_and_dedups() {
    let raw = strings(&["  bob ", "", "alice", "bob", "  ", "alice "]);
    assert_eq!(dedup_clean(&raw), strings(&["alice", "bob"]));
}

#[test]
fn date_fragments_are_positional_slices() {
    let mut p = empty_persona(policy(1, 10));
    p.chronology.birthdates = strings(&["24121990"]);
    let frags = derive_date_fragments(&p);
    assert_eq!(frags, strings(&["12", "1990", "24", "2412", "90"]));
}

#[test]
fn short_dates_yield_only_tail_fragments() {
    let mut p = empty_persona(policy(1, 10));
    p.chronology.graduation_years = strings(&["1990", "07"]);
    let frags = derive_date_fragments(&p);
    assert_eq!(frags, strings(&["07", "1990", "90"]));
}

#[test]
fn case_variants_are_sorted_and_deduplicated() {
    assert_eq!(case_variants("ab", false), strings(&["AB", "Ab", "ab"]));
    assert_eq!(case_variants("ab", true), strings(&["AB", "Ab", "ab", "ba"]));
}

#[test]
fn numeric_layer_passes_through_without_the_flag() {
    let p = policy(1, 10);
    assert_eq!(numeric_layer("word", &p, false), strings(&["word"]));
}

#[test]
fn numeric_layer_appends_zero_padded_widths() {
    let mut p = policy(1, 3);
    p.require_numeric = true;
    let out = numeric_layer("x", &p, false);
    assert_eq!(out.len(), 10 + 100);
    assert_eq!(out[0], "x0");
    assert_eq!(out[9], "x9");
    assert_eq!(out[10], "x00");
    assert_eq!(out[109], "x99");
}

#[test]
fn numeric_layer_caps_width_at_three_in_normal_mode() {
    let mut p = policy(1, 20);
    p.require_numeric = true;
    let normal = numeric_layer("x", &p, false);
    assert_eq!(normal.len(), 10 + 100 + 1000);
}

#[test]
fn symbol_layer_inserts_each_fixed_symbol() {
    let mut p = policy(1, 10);
    p.require_symbol = true;
    let out = symbol_layer("ab", &p, false);
    assert_eq!(
        out,
        strings(&["ab!", "!ab", "a!b", "ab@", "@ab", "a@b", "ab#", "#ab", "a#b"])
    );
    let aggressive = symbol_layer("abc", &p, true);
    assert_eq!(
        aggressive,
        strings(&[
            "abc!", "!abc", "a!bc", "ab!c", "abc@", "@abc", "a@bc", "ab@c", "abc#", "#abc",
            "a#bc", "ab#c"
        ])
    );
}

#[test]
fn symbol_layer_passes_through_without_the_flag() {
    let p = policy(1, 10);
    assert_eq!(symbol_layer("ab", &p, false), strings(&["ab"]));
}

#[test]
fn leet_layer_substitutes_each_applicable_letter() {
    assert_eq!(leet_layer("pass", false), strings(&["pass", "p@ss", "pa$$"]));
    assert_eq!(
        leet_layer("pass", true),
        strings(&["pass", "p@ss", "ss@p", "pa$$", "$$ap"])
    );
    assert_eq!(leet_layer("xyz", false), strings(&["xyz"]));
}

#[test]
fn expansion_adds_reversal_and_fragment_bookends() {
    let segs = strings(&["a", "b"]);
    let frags = strings(&["9"]);
    let out = expand_sequence(&segs, &frags);
    assert_eq!(out.len(), 4);
    assert_eq!(out[0], strings(&["a", "b"]));
    assert_eq!(out[1], strings(&["b", "a"]));
    assert_eq!(out[2], strings(&["a", "b", "9"]));
    assert_eq!(out[3], strings(&["9", "a", "b"]));
}

#[test]
fn case_combinations_cover_the_cartesian_product() {
    let mut out = segment_case_combinations(&strings(&["ab", "c"]), false);
    out.sort();
    let mut expected = strings(&["ABC", "ABc", "AbC", "Abc", "abC", "abc"]);
    expected.sort();
    assert_eq!(out, expected);
}

#[test]
fn transform_word_filters_on_final_length() {
    let p = policy(4, 5);
    let out = transform_word(&String::from("word"), &p, false);
    assert_eq!(out, strings(&["word", "w0rd"]));
    let too_long = transform_word(&String::from("toolongword"), &p, false);
    assert!(too_long.is_empty());
}

#[test]
fn generate_produces_the_exact_candidate_set() {
    let mut p = empty_persona(policy(1, 5));
    p.identity.full_name = String::from("bob");
    let out = generate(&p, false);
    assert_eq!(out, strings(&["B0b", "BOB", "Bob", "b0b", "bob"]));
}

#[test]
fn generate_is_deterministic_across_runs() {
    let mut p = empty_persona(policy(1, 8));
    p.identity.full_name = String::from("Ana Lee");
    p.personal.hobbies = strings(&["chess"]);
    p.chronology.birthdates = strings(&["1990"]);
    let a = generate(&p, false);
    let b = generate(&p, false);
    assert_eq!(a, b);
}

#[test]
fn aggressive_result_is_a_superset_of_normal() {
    let mut p = empty_persona(policy(1, 8));
    p.identity.full_name = String::from("bo");
    p.geography.current_city = strings(&["rio"]);
    p.chronology.birthdates = strings(&["1990"]);
    let normal = generate(&p, false);
    let aggressive = generate(&p, true);
    for c in &normal {
        assert!(aggressive.contains(c));
    }
}

#[test]
fn mandatory_include_seeds_the_identity_category() {
    let mut pol = policy(1, 6);
    pol.mandatory_include = strings(&["key"]);
    let p = empty_persona(pol);
    let out = generate(&p, false);
    assert!(out.contains(&String::from("key")));
    for c in &out {
        assert!(c.contains("key"));
    }
}
