//! The brute-force engine's core: alphabet derivation from the policy,
//! keyspace sizing with explicit overflow detection, and the bijective
//! mixed-radix mapping from an index to the string it denotes.
//!
//! Enumeration itself is embarrassingly parallel: every index is mapped
//! independently, so the caller drives `validated_candidate` over whatever
//! index ranges it partitions out and appends the hits to its output stream.

use vstd::prelude::*;

use vstd::arithmetic::power::pow;
use vstd::arithmetic::power::lemma_pow_increases;
use vstd::arithmetic::div_mod::lemma_fundamental_div_mod;
use crate::models::PasswordPolicy;
use crate::policy::policy_ok;
use crate::policy::validate;

verus! {

/// The 26 lowercase letters in order.
pub open spec fn lower_chars() -> Seq<char> {
    Seq::new(26, |i: int| ((97 + i) as u8) as char)
}

/// The 26 uppercase letters in order.
pub open spec fn upper_chars() -> Seq<char> {
    Seq::new(26, |i: int| ((65 + i) as u8) as char)
}

/// The 10 decimal digits in order.
pub open spec fn digit_chars() -> Seq<char> {
    Seq::new(10, |i: int| ((48 + i) as u8) as char)
}

/// The fixed six-symbol alphabet of the brute-force engine.
pub open spec fn symbol_chars() -> Seq<char> {
    seq!['!', '@', '#', '$', '%', '&']
}

/// The derived alphabet: the unions gated by the policy's class flags, or
/// letters and digits when no flag is set. Never empty.
pub open spec fn charset_spec(policy: PasswordPolicy) -> Seq<char> {
    let gated = (if policy.require_lower {
        lower_chars()
    } else {
        Seq::empty()
    }) + (if policy.require_upper {
        upper_chars()
    } else {
        Seq::empty()
    }) + (if policy.require_numeric {
        digit_chars()
    } else {
        Seq::empty()
    }) + (if policy.require_symbol {
        symbol_chars()
    } else {
        Seq::empty()
    });
    if gated.len() == 0 {
        lower_chars() + upper_chars() + digit_chars()
    } else {
        gated
    }
}

/// No character repeats in a sequence.
pub open spec fn distinct_chars(cs: Seq<char>) -> bool {
    forall|i: int, j: int| 0 <= i < j < cs.len() ==> cs[i] != cs[j]
}

fn push_char_range(out: &mut Vec<char>, lo: u8, count: usize)
    requires
        lo + count <= 256,
    ensures
        final(out)@ == old(out)@ + Seq::new(count as nat, |i: int| ((lo + i) as u8) as char),
{
    let ghost base = out@;
    let mut i: usize = 0;
    while i < count
        invariant
            i <= count,
            lo + count <= 256,
            out@ =~= base + Seq::new(i as nat, |t: int| ((lo + t) as u8) as char),
        decreases count - i,
    {
        out.push((lo + i as u8) as char);
        proof {
            assert(out@ =~= base + Seq::new(i as nat + 1, |t: int| ((lo + t) as u8) as char));
        }
        i += 1;
    }
    proof {
        assert(out@ =~= base + Seq::new(count as nat, |t: int| ((lo + t) as u8) as char));
    }
}

/// Derives the enumeration alphabet from the policy. The result is exactly
/// `charset_spec`, is never empty, and holds no duplicate characters.
#[verifier::rlimit(100)]
pub fn build_charset(policy: &PasswordPolicy) -> (r: Vec<char>)
    ensures
        r@ == charset_spec(*policy),
        r@.len() > 0,
        distinct_chars(r@),
{
    let mut cs: Vec<char> = Vec::new();
    if policy.require_lower {
        push_char_range(&mut cs, 97, 26);
    }
    if policy.require_upper {
        push_char_range(&mut cs, 65, 26);
    }
    if policy.require_numeric {
        push_char_range(&mut cs, 48, 10);
    }
    if policy.require_symbol {
        cs.push('!');
        cs.push('@');
        cs.push('#');
        cs.push('$');
        cs.push('%');
        cs.push('&');
    }
    if cs.len() == 0 {
        push_char_range(&mut cs, 97, 26);
        push_char_range(&mut cs, 65, 26);
        push_char_range(&mut cs, 48, 10);
    }
    proof {
        assert(cs@ =~= charset_spec(*policy));
        assert(distinct_chars(cs@)) by {
            assert forall|i: int, j: int| 0 <= i < j < cs@.len() implies cs@[i] != cs@[j] by {
                let ci = cs@[i];
                let cj = cs@[j];
                assert((ci as u32) != (cj as u32));
            }
        }
    }
    cs
}

/// The string index `i` denotes in the keyspace of length-`l` strings over
/// alphabet `cs`: mixed-radix decomposition, least-significant position
/// rightmost, so consecutive indices differ in the rightmost position first.
pub open spec fn decode(i: nat, l: nat, cs: Seq<char>) -> Seq<char>
    decreases l,
{
    if l == 0 {
        Seq::empty()
    } else {
        decode(i / cs.len(), (l - 1) as nat, cs).push(cs[(i % cs.len()) as int])
    }
}

proof fn lemma_decode_unfold(i: nat, l: nat, cs: Seq<char>)
    requires
        l > 0,
        cs.len() > 0,
    ensures
        decode(i, l, cs) == decode(i / cs.len(), (l - 1) as nat, cs).push(
            cs[(i % cs.len()) as int],
        ),
{
    assert(decode(i, l, cs) == if l == 0 {
        Seq::<char>::empty()
    } else {
        decode(i / cs.len(), (l - 1) as nat, cs).push(cs[(i % cs.len()) as int])
    });
}

/// A decoded string has exactly the requested length.
pub proof fn lemma_decode_len(i: nat, l: nat, cs: Seq<char>)
    requires
        cs.len() > 0,
    ensures
        decode(i, l, cs).len() == l,
    decreases l,
{
    if l > 0 {
        lemma_decode_len(i / cs.len(), (l - 1) as nat, cs);
        lemma_decode_unfold(i, l, cs);
    }
}

/// The mapping is injective: two distinct indices below `|cs|^l` always
/// decode to distinct strings, so no candidate repeats within one length's
/// sweep, and with `lemma_decode_len` no candidate repeats across lengths.
pub proof fn lemma_decode_injective(i1: nat, i2: nat, l: nat, cs: Seq<char>)
    requires
        cs.len() > 0,
        distinct_chars(cs),
        i1 < pow(cs.len() as int, l),
        i2 < pow(cs.len() as int, l),
        decode(i1, l, cs) == decode(i2, l, cs),
    ensures
        i1 == i2,
    decreases l,
{
    reveal(pow);
    let b = cs.len() as int;
    if l == 0 {
        assert(pow(b, 0) == 1);
    } else {
        let d1 = decode(i1, l, cs);
        let d2 = decode(i2, l, cs);
        let p1 = decode(i1 / cs.len(), (l - 1) as nat, cs);
        let p2 = decode(i2 / cs.len(), (l - 1) as nat, cs);
        lemma_decode_unfold(i1, l, cs);
        lemma_decode_unfold(i2, l, cs);
        lemma_decode_len(i1 / cs.len(), (l - 1) as nat, cs);
        lemma_decode_len(i2 / cs.len(), (l - 1) as nat, cs);
        assert(d1[l - 1] == cs[(i1 % cs.len()) as int]);
        assert(d2[l - 1] == cs[(i2 % cs.len()) as int]);
        assert(i1 % cs.len() == i2 % cs.len()) by {
            if i1 % cs.len() != i2 % cs.len() {
                assert(cs[(i1 % cs.len()) as int] != cs[(i2 % cs.len()) as int]);
            }
        }
        assert(p1 =~= p2) by {
            assert(forall|t: int| 0 <= t < l - 1 ==> p1[t] == d1[t] && p2[t] == d2[t]);
        }
        assert(i1 / cs.len() < pow(b, (l - 1) as nat) && i2 / cs.len() < pow(b, (l - 1) as nat))
            by {
            assert(pow(b, l) == b * pow(b, (l - 1) as nat));
            lemma_fundamental_div_mod(i1 as int, b);
            lemma_fundamental_div_mod(i2 as int, b);
            assert(i1 / cs.len() < pow(b, (l - 1) as nat)) by (nonlinear_arith)
                requires
                    b > 0,
                    i1 < b * pow(b, (l - 1) as nat),
                    i1 as int == b * ((i1 as int) / b) + (i1 as int) % b,
                    (i1 as int) / b == i1 / cs.len(),
                    (i1 as int) % b >= 0,
            ;
            assert(i2 / cs.len() < pow(b, (l - 1) as nat)) by (nonlinear_arith)
                requires
                    b > 0,
                    i2 < b * pow(b, (l - 1) as nat),
                    i2 as int == b * ((i2 as int) / b) + (i2 as int) % b,
                    (i2 as int) / b == i2 / cs.len(),
                    (i2 as int) % b >= 0,
            ;
        }
        lemma_decode_injective(i1 / cs.len(), i2 / cs.len(), (l - 1) as nat, cs);
        lemma_fundamental_div_mod(i1 as int, b);
        lemma_fundamental_div_mod(i2 as int, b);
    }
}

/// No duplication across a full sweep: two distinct (length, index) pairs
/// within range always decode to distinct candidates — different lengths
/// give strings of different lengths, and within one length distinct
/// indices give distinct strings.
pub proof fn lemma_sweep_no_duplicates(i1: nat, l1: nat, i2: nat, l2: nat, cs: Seq<char>)
    requires
        cs.len() > 0,
        distinct_chars(cs),
        i1 < pow(cs.len() as int, l1),
        i2 < pow(cs.len() as int, l2),
        l1 != l2 || i1 != i2,
    ensures
        decode(i1, l1, cs) != decode(i2, l2, cs),
{
    lemma_decode_len(i1, l1, cs);
    lemma_decode_len(i2, l2, cs);
    if l1 == l2 && decode(i1, l1, cs) == decode(i2, l2, cs) {
        lemma_decode_injective(i1, i2, l1, cs);
    }
}

/// Every character of the string belongs to the alphabet.
pub open spec fn string_over(s: Seq<char>, cs: Seq<char>) -> bool {
    forall|i: int| 0 <= i < s.len() ==> cs.contains(#[trigger] s[i])
}

pub open spec fn index_in(cs: Seq<char>, c: char) -> int {
    choose|i: int| 0 <= i < cs.len() && cs[i] == c
}

/// The keyspace index of a string: the mixed-radix reading of its characters'
/// alphabet positions, the inverse direction of `decode`.
pub open spec fn encode(s: Seq<char>, cs: Seq<char>) -> nat
    decreases s.len(),
{
    if s.len() == 0 {
        0
    } else {
        (encode(s.drop_last(), cs) * cs.len() + index_in(cs, s.last())) as nat
    }
}

/// The mapping is surjective: every length-`l` string over the alphabet is
/// decoded from its own encoding, which lies below `|cs|^l`. Together with
/// `lemma_decode_injective` this makes index-to-string a bijection between
/// `[0, |cs|^l)` and the full keyspace of length `l`.
pub proof fn lemma_decode_encode(s: Seq<char>, cs: Seq<char>)
    requires
        cs.len() > 0,
        string_over(s, cs),
    ensures
        encode(s, cs) < pow(cs.len() as int, s.len()),
        decode(encode(s, cs), s.len(), cs) == s,
    decreases s.len(),
{
    reveal(pow);
    let b = cs.len() as int;
    let l = s.len();
    if l == 0 {
        assert(decode(0, 0, cs) =~= s) by {
            lemma_decode_len(0, 0, cs);
        }
    } else {
        let prefix = s.drop_last();
        assert(string_over(prefix, cs)) by {
            assert(forall|i: int| 0 <= i < prefix.len() ==> prefix[i] == s[i]);
        }
        lemma_decode_encode(prefix, cs);
        let ep = encode(prefix, cs);
        assert(cs.contains(s.last()));
        let d = index_in(cs, s.last());
        assert(0 <= d < cs.len() && cs[d] == s.last());
        let e = encode(s, cs);
        assert(e == ep * b + d);
        assert(pow(b, l) == b * pow(b, (l - 1) as nat));
        assert(e < pow(b, l)) by (nonlinear_arith)
            requires
                e == ep * b + d,
                0 <= ep < pow(b, (l - 1) as nat),
                0 <= d < b,
                pow(b, l) == b * pow(b, (l - 1) as nat),
        ;
        vstd::arithmetic::div_mod::lemma_fundamental_div_mod_converse(
            e as int,
            b,
            ep as int,
            d,
        );
        assert(e as nat / cs.len() == ep && e as nat % cs.len() == d as nat);
        lemma_decode_unfold(e, l, cs);
        assert(decode(e, l, cs) =~= s) by {
            assert(decode(e, l, cs) == decode(ep, (l - 1) as nat, cs).push(cs[d]));
            assert(decode(ep, (l - 1) as nat, cs) == prefix);
            assert(prefix.push(s.last()) =~= s);
        }
    }
}

/// Maps one keyspace index to its string: repeated division by the alphabet
/// size fills positions right to left. The bijection's forward direction.
pub fn index_to_candidate(index: u128, length: usize, charset: &Vec<char>) -> (r: String)
    requires
        charset@.len() > 0,
    ensures
        r@ == decode(index as nat, length as nat, charset@),
    decreases length,
{
    let base = charset.len() as u128;
    if length == 0 {
        String::new()
    } else {
        let mut s = index_to_candidate(index / base, length - 1, charset);
        let pos = (index % base) as usize;
        s.push(charset[pos]);
        s
    }
}

/// Why a brute-force configuration is rejected before any work begins.
#[derive(Clone, Copy, Debug, PartialEq, Eq, Structural)]
pub enum ConfigError {
    /// `min_length` exceeds `max_length`: the sweep would be empty.
    InvertedBounds,
    /// Some length's keyspace exceeds the 128-bit representable range.
    KeyspaceOverflow,
}

/// `base^exp`, or `None` when the product leaves the 128-bit range; never
/// wraps around.
pub fn checked_pow_u128(base: u128, exp: usize) -> (r: Option<u128>)
    requires
        base >= 1,
    ensures
        match r {
            Some(p) => p == pow(base as int, exp as nat),
            None => pow(base as int, exp as nat) > u128::MAX,
        },
{
    let mut acc: u128 = 1;
    let mut i: usize = 0;
    proof {
        reveal(pow);
    }
    while i < exp
        invariant
            i <= exp,
            base >= 1,
            acc == pow(base as int, i as nat),
        decreases exp - i,
    {
        let next = acc.checked_mul(base);
        match next {
            Some(v) => {
                proof {
                    reveal(pow);
                    assert(pow(base as int, i as nat + 1) == base * pow(base as int, i as nat));
                    assert(base * pow(base as int, i as nat) == acc * base) by (nonlinear_arith)
                        requires
                            acc == pow(base as int, i as nat),
                    ;
                }
                acc = v;
            },
            None => {
                proof {
                    reveal(pow);
                    assert(pow(base as int, i as nat + 1) == base * pow(base as int, i as nat));
                    assert(base * pow(base as int, i as nat) == acc * base) by (nonlinear_arith)
                        requires
                            acc == pow(base as int, i as nat),
                    ;
                    lemma_pow_increases(base as nat, i as nat + 1, exp as nat);
                }
                return None;
            },
        }
        i += 1;
    }
    Some(acc)
}

/// One length's share of the sweep: its keyspace size and the index the
/// enumeration starts from.
#[derive(Clone, Copy, Debug, PartialEq, Eq, Structural)]
pub struct LengthPlan {
    pub length: usize,
    pub total: u128,
    pub start: u128,
}

/// A plan is one entry per length from `min_length` to `max_length`, in
/// order, each sized to its full keyspace and starting at the resume offset.
pub open spec fn plan_matches(
    plans: Seq<LengthPlan>,
    policy: PasswordPolicy,
    cs_len: nat,
    start: u128,
) -> bool {
    &&& plans.len() == policy.max_length - policy.min_length + 1
    &&& forall|t: int|
        0 <= t < plans.len() ==> (#[trigger] plans[t]).length == policy.min_length + t
            && plans[t].total == pow(cs_len as int, (policy.min_length + t) as nat)
            && plans[t].start == start
}

/// Checks the configuration and sizes every length's keyspace before any
/// enumeration work begins. Inverted bounds and keyspace overflow are
/// terminal errors, never a silent empty or wrapped sweep. The caller's
/// resume offset applies uniformly to every length in the sweep — a resumed
/// run skips the equivalent prefix of every length, not only the length that
/// was interrupted, so per-length runs must be restarted individually to
/// resume precisely.
pub fn plan_bruteforce(policy: &PasswordPolicy, charset: &Vec<char>, resume_from: Option<u128>)
    -> (r: Result<Vec<LengthPlan>, ConfigError>)
    requires
        charset@.len() >= 1,
    ensures
        policy.min_length > policy.max_length <==> r == Err::<Vec<LengthPlan>, ConfigError>(
            ConfigError::InvertedBounds,
        ),
        (policy.min_length <= policy.max_length && pow(
            charset@.len() as int,
            policy.max_length as nat,
        ) > u128::MAX) <==> r == Err::<Vec<LengthPlan>, ConfigError>(ConfigError::KeyspaceOverflow),
        match r {
            Ok(plans) => plan_matches(
                plans@,
                *policy,
                charset@.len(),
                match resume_from {
                    Some(v) => v,
                    None => 0,
                },
            ),
            Err(_) => true,
        },
{
    if policy.min_length > policy.max_length {
        return Err(ConfigError::InvertedBounds);
    }
    let start: u128 = match resume_from {
        Some(v) => v,
        None => 0,
    };
    proof {
        assert(start == match resume_from {
            Some(v) => v,
            None => 0u128,
        });
    }
    let base = charset.len() as u128;
    let mut plans: Vec<LengthPlan> = Vec::new();
    let mut length = policy.min_length;
    while length <= policy.max_length
        invariant
            policy.min_length <= length <= policy.max_length,
            base == charset@.len(),
            base >= 1,
            start == match resume_from {
                Some(v) => v,
                None => 0u128,
            },
            plans@.len() == length - policy.min_length,
            forall|t: int|
                0 <= t < plans@.len() ==> (#[trigger] plans@[t]).length == policy.min_length + t
                    && plans@[t].total == pow(charset@.len() as int, (policy.min_length + t) as nat)
                    && plans@[t].start == start,
        decreases policy.max_length - length,
    {
        match checked_pow_u128(base, length) {
            Some(total) => {
                let ghost prev = plans@;
                plans.push(LengthPlan { length, total, start });
                proof {
                    let ps = plans@;
                    assert forall|t: int| 0 <= t < ps.len() implies (#[trigger] ps[t]).length
                        == policy.min_length + t && ps[t].total == pow(
                        charset@.len() as int,
                        (policy.min_length + t) as nat,
                    ) && ps[t].start == start by {
                        if t < ps.len() - 1 {
                            assert(ps[t] == prev[t]);
                        } else {
                            assert(ps[t].length == length);
                        }
                    }
                }
            },
            None => {
                proof {
                    lemma_pow_increases(base as nat, length as nat, policy.max_length as nat);
                }
                return Err(ConfigError::KeyspaceOverflow);
            },
        }
        if length == policy.max_length {
            return Ok(plans);
        }
        length += 1;
    }
    proof {
        assert(false);
    }
    Err(ConfigError::InvertedBounds)
}

/// Maps one index and validates the result: `Some` exactly when the decoded
/// string satisfies the policy, and then it is exactly the decoded string.
/// Each index is independent, so callers may partition the range freely.
pub fn validated_candidate(
    policy: &PasswordPolicy,
    charset: &Vec<char>,
    length: usize,
    index: u128,
) -> (r: Option<String>)
    requires
        charset@.len() > 0,
    ensures
        match r {
            Some(s) => s@ == decode(index as nat, length as nat, charset@) && policy_ok(
                s@,
                *policy,
            ),
            None => !policy_ok(decode(index as nat, length as nat, charset@), *policy),
        },
{
    let candidate = index_to_candidate(index, length, charset);
    if validate(candidate.as_str(), policy) {
        Some(candidate)
    } else {
        None
    }
}

} // verus!
