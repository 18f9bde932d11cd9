//! Input data model: the persona's attribute groups and the password policy.
//!
//! Both are immutable inputs, fully populated by the caller before either
//! engine runs; no component of the library mutates them.

use vstd::prelude::*;

verus! {

/// Name-derived material: the full name (whitespace-split downstream),
/// nicknames, family members, pets and maiden names.
pub struct Identity {
    pub full_name: String,
    pub nicknames: Vec<String>,
    pub spouse: Vec<String>,
    pub children: Vec<String>,
    pub pets: Vec<String>,
    pub maiden_names: Vec<String>,
}

/// Date strings; sliced positionally into fragments, never parsed as
/// calendar dates.
pub struct Chronology {
    pub birthdates: Vec<String>,
    pub anniversaries: Vec<String>,
    pub graduation_years: Vec<String>,
    pub employment_start: Vec<String>,
}

pub struct Geography {
    pub birth_city: Vec<String>,
    pub current_city: Vec<String>,
    pub streets: Vec<String>,
    pub vacation_spots: Vec<String>,
}

pub struct Professional {
    pub current_company: Vec<String>,
    pub previous_employers: Vec<String>,
    pub departments: Vec<String>,
    pub projects: Vec<String>,
    pub host_naming: Vec<String>,
}

pub struct Personal {
    pub sports_teams: Vec<String>,
    pub bands: Vec<String>,
    pub hobbies: Vec<String>,
    pub cars: Vec<String>,
}

/// Cultural context; recorded with the persona but excluded from category
/// material by the extractor.
pub struct Culture {
    pub slang: Vec<String>,
    pub keyboard_layout: String,
}

/// The shared policy both engines validate against. `min_length` and
/// `max_length` carry no enforced ordering here; an inverted pair simply
/// rejects every candidate, and the brute-force planner reports it as a
/// configuration error before any work begins.
pub struct PasswordPolicy {
    pub min_length: usize,
    pub max_length: usize,
    pub require_upper: bool,
    pub require_lower: bool,
    pub require_numeric: bool,
    pub require_symbol: bool,
    pub mandatory_include: Vec<String>,
    pub exclude: Vec<String>,
}

/// The full biographical input plus the policy and the caller's chosen
/// output path.
pub struct Persona {
    pub identity: Identity,
    pub chronology: Chronology,
    pub geography: Geography,
    pub professional: Professional,
    pub personal: Personal,
    pub culture: Culture,
    pub policy: PasswordPolicy,
    pub output_file: String,
}

} // verus!
