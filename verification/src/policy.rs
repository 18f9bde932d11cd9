//! The shared policy predicate: one pure, total check used by both engines.

use vstd::prelude::*;

use crate::chars::char_is_alphanumeric;
use crate::chars::char_is_lower;
use crate::chars::char_is_numeric;
use crate::chars::char_is_upper;
use crate::chars::contains_seq;
use crate::chars::contains_str;
use crate::models::PasswordPolicy;
use crate::spec_length_ok;

verus! {

/// Some character of the word is an uppercase letter.
pub open spec fn has_upper(word: Seq<char>) -> bool {
    exists|i: int| 0 <= i < word.len() && char_is_upper(word[i])
}

/// Some character of the word is a lowercase letter.
pub open spec fn has_lower(word: Seq<char>) -> bool {
    exists|i: int| 0 <= i < word.len() && char_is_lower(word[i])
}

/// Some character of the word is numeric.
pub open spec fn has_numeric(word: Seq<char>) -> bool {
    exists|i: int| 0 <= i < word.len() && char_is_numeric(word[i])
}

/// Some character of the word is a symbol: any non-alphanumeric character.
pub open spec fn has_symbol(word: Seq<char>) -> bool {
    exists|i: int| 0 <= i < word.len() && !char_is_alphanumeric(word[i])
}

/// The full policy predicate: length within bounds, every required character
/// class present, every mandatory substring present, no excluded substring
/// present. Total over all inputs, including the empty string.
pub open spec fn policy_ok(word: Seq<char>, policy: PasswordPolicy) -> bool {
    &&& spec_length_ok(word, policy)
    &&& (policy.require_upper ==> has_upper(word))
    &&& (policy.require_lower ==> has_lower(word))
    &&& (policy.require_numeric ==> has_numeric(word))
    &&& (policy.require_symbol ==> has_symbol(word))
    &&& (forall|k: int|
        0 <= k < policy.mandatory_include.deep_view().len() ==> contains_seq(
            word,
            policy.mandatory_include.deep_view()[k],
        ))
    &&& (forall|k: int|
        0 <= k < policy.exclude.deep_view().len() ==> !contains_seq(
            word,
            policy.exclude.deep_view()[k],
        ))
}

/// One scan of the word, reporting which of the four character classes occur.
fn scan_classes(word: &str) -> (r: (bool, bool, bool, bool))
    ensures
        r.0 == has_upper(word@),
        r.1 == has_lower(word@),
        r.2 == has_numeric(word@),
        r.3 == has_symbol(word@),
{
    let len = word.unicode_len();
    let mut upper = false;
    let mut lower = false;
    let mut numeric = false;
    let mut symbol = false;
    let mut i: usize = 0;
    while i < len
        invariant
            i <= len,
            len == word@.len(),
            upper == exists|t: int| 0 <= t < i && char_is_upper(word@[t]),
            lower == exists|t: int| 0 <= t < i && char_is_lower(word@[t]),
            numeric == exists|t: int| 0 <= t < i && char_is_numeric(word@[t]),
            symbol == exists|t: int| 0 <= t < i && !char_is_alphanumeric(word@[t]),
        decreases len - i,
    {
        let c = word.get_char(i);
        if c.is_uppercase() {
            upper = true;
        }
        if c.is_lowercase() {
            lower = true;
        }
        if c.is_numeric() {
            numeric = true;
        }
        if !c.is_alphanumeric() {
            symbol = true;
        }
        i += 1;
    }
    (upper, lower, numeric, symbol)
}

/// Decides whether a candidate satisfies the policy. Pure and total:
/// the result is exactly the `policy_ok` predicate of the word's characters.
pub fn validate(word: &str, policy: &PasswordPolicy) -> (r: bool)
    ensures
        r == policy_ok(word@, *policy),
{
    let len = word.unicode_len();
    if len < policy.min_length || len > policy.max_length {
        return false;
    }
    let (upper, lower, numeric, symbol) = scan_classes(word);
    if policy.require_upper && !upper {
        return false;
    }
    if policy.require_lower && !lower {
        return false;
    }
    if policy.require_numeric && !numeric {
        return false;
    }
    if policy.require_symbol && !symbol {
        return false;
    }
    let mut k: usize = 0;
    let ilen = policy.mandatory_include.len();
    while k < ilen
        invariant
            k <= ilen,
            ilen == policy.mandatory_include.len(),
            forall|t: int|
                0 <= t < k ==> contains_seq(word@, policy.mandatory_include.deep_view()[t]),
        decreases ilen - k,
    {
        if !contains_str(word, policy.mandatory_include[k].as_str()) {
            assert(!contains_seq(word@, policy.mandatory_include.deep_view()[k as int]));
            return false;
        }
        k += 1;
    }
    let mut k: usize = 0;
    let elen = policy.exclude.len();
    while k < elen
        invariant
            k <= elen,
            elen == policy.exclude.len(),
            forall|t: int| 0 <= t < k ==> !contains_seq(word@, policy.exclude.deep_view()[t]),
        decreases elen - k,
    {
        if contains_str(word, policy.exclude[k].as_str()) {
            assert(contains_seq(word@, policy.exclude.deep_view()[k as int]));
            return false;
        }
        k += 1;
    }
    true
}

} // verus!
