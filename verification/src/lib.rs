//! Candidate password generation for authorized security testing.
//!
//! Two engines share one policy predicate: a persona-driven mutation engine
//! that combinatorially derives candidates from biographical strings, and a
//! brute-force engine that enumerates every string of a given length over a
//! policy-derived alphabet through a bijective index-to-string mapping.

use vstd::prelude::*;

pub mod bruteforce;
pub mod categories;
pub mod chars;
pub mod models;
pub mod mutation;
pub mod order;
pub mod policy;
pub mod segments;
pub mod transform;

pub use models::Chronology;
pub use models::Culture;
pub use models::Geography;
pub use models::Identity;
pub use models::PasswordPolicy;
pub use models::Persona;
pub use models::Personal;
pub use models::Professional;
pub use mutation::generate;
pub use policy::validate;

verus! {

/// Length check shared by both engines: the candidate's character count must
/// lie within the policy's inclusive bounds.
pub open spec fn spec_length_ok(word: Seq<char>, policy: PasswordPolicy) -> bool {
    policy.min_length <= word.len() <= policy.max_length
}

pub fn length_ok(word: &str, policy: &PasswordPolicy) -> (r: bool)
    ensures
        r == spec_length_ok(word@, *policy),
{
    let n = word.unicode_len();
    policy.min_length <= n && n <= policy.max_length
}

} // verus!
