//! The per-word transformation layers, applied in a fixed order to every
//! joined candidate: numeric suffixes, symbol insertions, then leet-speak
//! substitutions. Case variants feed the combinator that joins segments.

use vstd::prelude::*;

use crate::chars::capitalize_str;
use crate::chars::capitalized;
use crate::chars::contains_char;
use crate::chars::lower_of;
use crate::chars::replace_char;
use crate::chars::replace_char_seq;
use crate::chars::reverse_str;
use crate::chars::upper_of;
use crate::models::PasswordPolicy;
use crate::order::push_owned;
use crate::order::sort_dedup;
use crate::order::strictly_sorted;

verus! {

/// The case-variant set of one segment: the segment itself, its lowercase
/// and uppercase mappings and its first-character-capitalized form, plus, in
/// aggressive mode, its character-reversed form.
pub open spec fn variant_set(w: Seq<char>, aggressive: bool) -> Set<Seq<char>> {
    let base = set![w, lower_of(w), upper_of(w), capitalized(w)];
    if aggressive {
        base.insert(w.reverse())
    } else {
        base
    }
}

/// Computes a segment's case variants, deduplicated and sorted.
pub fn case_variants(word: &str, aggressive: bool) -> (r: Vec<String>)
    ensures
        strictly_sorted(r.deep_view()),
        r.deep_view().to_set() == variant_set(word@, aggressive),
        r.deep_view().len() > 0,
{
    let mut tmp: Vec<String> = Vec::new();
    push_owned(&mut tmp, String::from_str(word));
    push_owned(&mut tmp, word.to_lowercase());
    push_owned(&mut tmp, word.to_uppercase());
    push_owned(&mut tmp, capitalize_str(word));
    if aggressive {
        push_owned(&mut tmp, reverse_str(word));
    }
    proof {
        let dv = tmp.deep_view();
        assert(dv.to_set() =~= variant_set(word@, aggressive)) by {
            assert forall|x: Seq<char>| dv.to_set().contains(x) implies variant_set(
                word@,
                aggressive,
            ).contains(x) by {
                let t = choose|t: int| 0 <= t < dv.len() && dv[t] == x;
            }
            assert forall|x: Seq<char>| variant_set(word@, aggressive).contains(
                x,
            ) implies dv.to_set().contains(x) by {
                if x == word@ {
                    assert(dv[0] == x);
                } else if x == lower_of(word@) {
                    assert(dv[1] == x);
                } else if x == upper_of(word@) {
                    assert(dv[2] == x);
                } else if x == capitalized(word@) {
                    assert(dv[3] == x);
                } else {
                    assert(aggressive && x == word@.reverse());
                    assert(dv[4] == x);
                }
            }
        }
    }
    let out = sort_dedup(&tmp);
    proof {
        let ov = out.deep_view();
        if ov.len() == 0 {
            assert(!ov.to_set().contains(word@));
            assert(variant_set(word@, aggressive).contains(word@));
        }
    }
    out
}

/// What one leet mapping contributes: nothing when the letter is absent;
/// otherwise the substituted word and, in aggressive mode, also its
/// character-reversed form.
pub open spec fn leet_one(w: Seq<char>, from: char, to: char, aggressive: bool) -> Seq<Seq<char>> {
    if w.contains(from) {
        if aggressive {
            seq![replace_char_seq(w, from, to), replace_char_seq(w, from, to).reverse()]
        } else {
            seq![replace_char_seq(w, from, to)]
        }
    } else {
        Seq::empty()
    }
}

/// The leet layer's output for one word: the word itself, then the
/// contribution of each of the five fixed letter substitutions
/// (a→@, o→0, e→3, i→1, s→$), in that order.
pub open spec fn leet_layer_spec(w: Seq<char>, aggressive: bool) -> Seq<Seq<char>> {
    seq![w] + leet_one(w, 'a', '@', aggressive) + leet_one(w, 'o', '0', aggressive) + leet_one(
        w,
        'e',
        '3',
        aggressive,
    ) + leet_one(w, 'i', '1', aggressive) + leet_one(w, 's', '$', aggressive)
}

fn leet_push(out: &mut Vec<String>, word: &str, from: char, to: char, aggressive: bool)
    ensures
        final(out).deep_view() == old(out).deep_view() + leet_one(word@, from, to, aggressive),
{
    let ghost base = out.deep_view();
    if contains_char(word, from) {
        let replaced = replace_char(word, from, to);
        if aggressive {
            let rev = reverse_str(replaced.as_str());
            push_owned(out, replaced);
            push_owned(out, rev);
        } else {
            push_owned(out, replaced);
        }
    }
    proof {
        assert(out.deep_view() =~= base + leet_one(word@, from, to, aggressive));
    }
}

/// Applies the leet-speak layer: always keeps the unmodified word, adds each
/// applicable single-letter substitution, and in aggressive mode each
/// substitution's reversed form.
pub fn leet_layer(word: &str, aggressive: bool) -> (r: Vec<String>)
    ensures
        r.deep_view() == leet_layer_spec(word@, aggressive),
{
    let mut out: Vec<String> = Vec::new();
    push_owned(&mut out, String::from_str(word));
    leet_push(&mut out, word, 'a', '@', aggressive);
    leet_push(&mut out, word, 'o', '0', aggressive);
    leet_push(&mut out, word, 'e', '3', aggressive);
    leet_push(&mut out, word, 'i', '1', aggressive);
    leet_push(&mut out, word, 's', '$', aggressive);
    proof {
        assert(out.deep_view() =~= leet_layer_spec(word@, aggressive));
    }
    out
}

/// The character of digit `d`.
pub open spec fn digit_char(d: int) -> char {
    ((48 + d) as u8) as char
}

/// All width-`w` digit strings built over a list of shorter tails: for each
/// digit in ascending order, that digit prefixed to every tail in order —
/// the zero-padded integers `0..10^w` in ascending order.
pub open spec fn digit_blocks(prev: Seq<Seq<char>>, d: int) -> Seq<Seq<char>>
    decreases 10 - d,
{
    if d < 0 || d >= 10 {
        Seq::empty()
    } else {
        prev.map_values(|t: Seq<char>| seq![digit_char(d)] + t) + digit_blocks(prev, d + 1)
    }
}

/// Every digit string of width `w`, in ascending numeric order.
pub open spec fn digit_strings_spec(w: nat) -> Seq<Seq<char>>
    decreases w,
{
    if w == 0 {
        seq![Seq::empty()]
    } else {
        digit_blocks(digit_strings_spec((w - 1) as nat), 0)
    }
}

fn digit_strings(width: usize) -> (r: Vec<String>)
    ensures
        r.deep_view() == digit_strings_spec(width as nat),
    decreases width,
{
    let mut out: Vec<String> = Vec::new();
    if width == 0 {
        push_owned(&mut out, String::new());
        proof {
            assert(out.deep_view() =~= digit_strings_spec(0));
        }
        return out;
    }
    let prev = digit_strings(width - 1);
    let ghost pv = prev.deep_view();
    let plen = prev.len();
    let mut d: u8 = 0;
    while d < 10
        invariant
            d <= 10,
            plen == prev.len(),
            pv == prev.deep_view(),
            out.deep_view() + digit_blocks(pv, d as int) =~= digit_blocks(pv, 0),
        decreases 10 - d,
    {
        let mut j: usize = 0;
        let ghost snap = out.deep_view();
        while j < plen
            invariant
                j <= plen,
                d < 10,
                plen == prev.len(),
                pv == prev.deep_view(),
                out.deep_view() =~= snap + pv.take(j as int).map_values(
                    |t: Seq<char>| seq![digit_char(d as int)] + t,
                ),
            decreases plen - j,
        {
            let mut s = String::new();
            s.push((48 + d) as char);
            let s = s.concat(prev[j].as_str());
            proof {
                assert(s@ =~= seq![digit_char(d as int)] + pv[j as int]);
            }
            push_owned(&mut out, s);
            proof {
                assert(pv.take(j + 1).map_values(|t: Seq<char>| seq![digit_char(d as int)] + t)
                    =~= pv.take(j as int).map_values(
                    |t: Seq<char>| seq![digit_char(d as int)] + t,
                ).push(seq![digit_char(d as int)] + pv[j as int]));
                assert(out.deep_view() =~= snap + pv.take(j + 1).map_values(
                    |t: Seq<char>| seq![digit_char(d as int)] + t,
                ));
            }
            j += 1;
        }
        proof {
            assert(pv.take(plen as int) =~= pv);
            assert(pv.take(plen as int).map_values(|t: Seq<char>| seq![digit_char(d as int)] + t)
                =~= pv.map_values(|t: Seq<char>| seq![digit_char(d as int)] + t));
            assert(digit_blocks(pv, d as int) == pv.map_values(
                |t: Seq<char>| seq![digit_char(d as int)] + t,
            ) + digit_blocks(pv, d as int + 1));
            assert(out.deep_view() + digit_blocks(pv, d as int + 1) =~= digit_blocks(pv, 0));
        }
        d += 1;
    }
    proof {
        assert(digit_blocks(pv, 10) == Seq::<Seq<char>>::empty());
        assert(out.deep_view() =~= out.deep_view() + digit_blocks(pv, 10));
        assert(out.deep_view() =~= digit_strings_spec(width as nat));
    }
    out
}

/// The numeric layer's output widths 1 through `maxd`, ascending, each width
/// contributing the word followed by every digit string of that width.
pub open spec fn numeric_widths(w: Seq<char>, maxd: nat) -> Seq<Seq<char>>
    decreases maxd,
{
    if maxd == 0 {
        Seq::empty()
    } else {
        numeric_widths(w, (maxd - 1) as nat) + digit_strings_spec(maxd).map_values(
            |p: Seq<char>| w + p,
        )
    }
}

/// The digit budget: the length left under `max_length`, capped at three in
/// normal mode and uncapped in aggressive mode.
pub open spec fn max_digits(wlen: nat, policy: PasswordPolicy, aggressive: bool) -> nat {
    let rem: nat = if policy.max_length >= wlen {
        (policy.max_length - wlen) as nat
    } else {
        0
    };
    if aggressive {
        rem
    } else if rem < 3 {
        rem
    } else {
        3
    }
}

/// The numeric layer's output: the word passed through unchanged when the
/// policy does not require a digit; otherwise the word followed by every
/// zero-padded integer of width 1 up to the digit budget.
pub open spec fn numeric_layer_spec(w: Seq<char>, policy: PasswordPolicy, aggressive: bool) -> Seq<
    Seq<char>,
> {
    if !policy.require_numeric {
        seq![w]
    } else {
        numeric_widths(w, max_digits(w.len(), policy, aggressive))
    }
}

/// Applies the numeric layer: appends zero-padded integers of every width
/// the budget allows, or passes the word through when no digit is required.
pub fn numeric_layer(word: &str, policy: &PasswordPolicy, aggressive: bool) -> (r: Vec<String>)
    ensures
        r.deep_view() == numeric_layer_spec(word@, *policy, aggressive),
{
    let mut out: Vec<String> = Vec::new();
    if !policy.require_numeric {
        push_owned(&mut out, String::from_str(word));
        proof {
            assert(out.deep_view() =~= numeric_layer_spec(word@, *policy, aggressive));
        }
        return out;
    }
    let wlen = word.unicode_len();
    let rem: usize = if policy.max_length >= wlen {
        policy.max_length - wlen
    } else {
        0
    };
    let maxd: usize = if aggressive {
        rem
    } else if rem < 3 {
        rem
    } else {
        3
    };
    proof {
        assert(maxd as nat == max_digits(word@.len(), *policy, aggressive));
    }
    let mut wd: usize = 0;
    while wd < maxd
        invariant
            wd <= maxd,
            out.deep_view() == numeric_widths(word@, wd as nat),
        decreases maxd - wd,
    {
        let width = wd + 1;
        let ds = digit_strings(width);
        let ghost dsv = ds.deep_view();
        let dlen = ds.len();
        let ghost snap = out.deep_view();
        let mut j: usize = 0;
        while j < dlen
            invariant
                j <= dlen,
                dlen == ds.len(),
                dsv == ds.deep_view(),
                out.deep_view() =~= snap + dsv.take(j as int).map_values(
                    |p: Seq<char>| word@ + p,
                ),
        decreases dlen - j,
        {
            let s = String::from_str(word).concat(ds[j].as_str());
            push_owned(&mut out, s);
            proof {
                assert(dsv.take(j + 1).map_values(|p: Seq<char>| word@ + p) =~= dsv.take(
                    j as int,
                ).map_values(|p: Seq<char>| word@ + p).push(word@ + dsv[j as int]));
                assert(out.deep_view() =~= snap + dsv.take(j + 1).map_values(
                    |p: Seq<char>| word@ + p,
                ));
            }
            j += 1;
        }
        proof {
            assert(dsv.take(dlen as int) =~= dsv);
            assert(dsv.take(dlen as int).map_values(|p: Seq<char>| word@ + p) =~= dsv.map_values(
                |p: Seq<char>| word@ + p,
            ));
            assert(numeric_widths(word@, width as nat) == numeric_widths(word@, wd as nat)
                + digit_strings_spec(width as nat).map_values(|p: Seq<char>| word@ + p));
            assert(out.deep_view() =~= numeric_widths(word@, width as nat));
        }
        wd = width;
    }
    proof {
        assert(out.deep_view() =~= numeric_layer_spec(word@, *policy, aggressive));
    }
    out
}

/// What one symbol contributes: appended, prepended, inserted after the
/// first character when the word has more than one, and — aggressive mode
/// only — inserted after the second when it has more than two.
pub open spec fn sym_one(w: Seq<char>, s: char, aggressive: bool) -> Seq<Seq<char>> {
    seq![w.push(s), seq![s] + w] + (if w.len() > 1 {
        seq![w.subrange(0, 1).push(s) + w.skip(1)]
    } else {
        Seq::empty()
    }) + (if aggressive && w.len() > 2 {
        seq![w.subrange(0, 2).push(s) + w.skip(2)]
    } else {
        Seq::empty()
    })
}

/// The symbol layer's output: the word passed through unchanged when the
/// policy does not require a symbol; otherwise each of the fixed symbols
/// `!`, `@`, `#` contributes its insertions, in that order.
pub open spec fn symbol_layer_spec(w: Seq<char>, policy: PasswordPolicy, aggressive: bool) -> Seq<
    Seq<char>,
> {
    if !policy.require_symbol {
        seq![w]
    } else {
        sym_one(w, '!', aggressive) + sym_one(w, '@', aggressive) + sym_one(w, '#', aggressive)
    }
}

fn sym_push(out: &mut Vec<String>, word: &str, wlen: usize, sym: char, aggressive: bool)
    requires
        wlen == word@.len(),
    ensures
        final(out).deep_view() == old(out).deep_view() + sym_one(word@, sym, aggressive),
{
    let ghost base = out.deep_view();
    let mut appended = String::from_str(word);
    appended.push(sym);
    push_owned(out, appended);
    let mut prepended = String::new();
    prepended.push(sym);
    let prepended = prepended.concat(word);
    push_owned(out, prepended);
    if wlen > 1 {
        let mut mid = word.substring_char(0, 1).to_owned();
        mid.push(sym);
        let mid = mid.concat(word.substring_char(1, wlen));
        push_owned(out, mid);
    }
    if aggressive && wlen > 2 {
        let mut mid2 = word.substring_char(0, 2).to_owned();
        mid2.push(sym);
        let mid2 = mid2.concat(word.substring_char(2, wlen));
        push_owned(out, mid2);
    }
    proof {
        assert(out.deep_view() =~= base + sym_one(word@, sym, aggressive));
    }
}

/// Applies the symbol layer for each of the three fixed symbols, or passes
/// the word through when the policy does not ask for a symbol.
pub fn symbol_layer(word: &str, policy: &PasswordPolicy, aggressive: bool) -> (r: Vec<String>)
    ensures
        r.deep_view() == symbol_layer_spec(word@, *policy, aggressive),
{
    let mut out: Vec<String> = Vec::new();
    if !policy.require_symbol {
        push_owned(&mut out, String::from_str(word));
        proof {
            assert(out.deep_view() =~= symbol_layer_spec(word@, *policy, aggressive));
        }
        return out;
    }
    let wlen = word.unicode_len();
    sym_push(&mut out, word, wlen, '!', aggressive);
    sym_push(&mut out, word, wlen, '@', aggressive);
    sym_push(&mut out, word, wlen, '#', aggressive);
    proof {
        assert(out.deep_view() =~= symbol_layer_spec(word@, *policy, aggressive));
    }
    out
}


/// Widening the mode never removes a case variant.
pub proof fn lemma_variant_set_mono(w: Seq<char>)
    ensures
        variant_set(w, false).subset_of(variant_set(w, true)),
{
    assert forall|x: Seq<char>| variant_set(w, false).contains(x) implies variant_set(
        w,
        true,
    ).contains(x) by {}
}

proof fn lemma_numeric_widths_mono(w: Seq<char>, n: nat, m: nat, x: Seq<char>)
    requires
        n <= m,
        numeric_widths(w, n).contains(x),
    ensures
        numeric_widths(w, m).contains(x),
    decreases m,
{
    if m > n {
        lemma_numeric_widths_mono(w, n, (m - 1) as nat, x);
        let u = choose|u: int|
            0 <= u < numeric_widths(w, (m - 1) as nat).len() && #[trigger] numeric_widths(
                w,
                (m - 1) as nat,
            )[u] == x;
        assert(numeric_widths(w, m)[u] == x);
    }
}

/// The aggressive digit budget never shrinks, so the normal numeric layer's
/// outputs all appear in the aggressive one.
pub proof fn lemma_numeric_layer_mono(w: Seq<char>, policy: PasswordPolicy, x: Seq<char>)
    requires
        numeric_layer_spec(w, policy, false).contains(x),
    ensures
        numeric_layer_spec(w, policy, true).contains(x),
{
    if policy.require_numeric {
        lemma_numeric_widths_mono(
            w,
            max_digits(w.len(), policy, false),
            max_digits(w.len(), policy, true),
            x,
        );
    }
}

/// Aggressive mode only appends extra symbol insertions.
pub proof fn lemma_symbol_layer_mono(w: Seq<char>, policy: PasswordPolicy, x: Seq<char>)
    requires
        symbol_layer_spec(w, policy, false).contains(x),
    ensures
        symbol_layer_spec(w, policy, true).contains(x),
{
    if policy.require_symbol {
        let u = choose|u: int|
            0 <= u < symbol_layer_spec(w, policy, false).len() && symbol_layer_spec(
                w,
                policy,
                false,
            )[u] == x;
        let n1 = sym_one(w, '!', false).len();
        let n2 = sym_one(w, '@', false).len();
        let a1 = sym_one(w, '!', true).len();
        let a2 = sym_one(w, '@', true).len();
        if u < n1 {
            assert(sym_one(w, '!', true)[u] == x);
            assert(symbol_layer_spec(w, policy, true)[u] == x);
        } else if u < n1 + n2 {
            assert(sym_one(w, '@', true)[u - n1] == x);
            assert(symbol_layer_spec(w, policy, true)[a1 as int + (u - n1)] == x);
        } else {
            assert(sym_one(w, '#', true)[u - n1 - n2] == x);
            assert(symbol_layer_spec(w, policy, true)[a1 as int + a2 as int + (u - n1 - n2)] == x);
        }
    }
}

proof fn lemma_leet_one_mono(w: Seq<char>, from: char, to: char, x: Seq<char>)
    requires
        leet_one(w, from, to, false).contains(x),
    ensures
        leet_one(w, from, to, true).contains(x),
{
    assert(leet_one(w, from, to, true)[0] == x);
}

/// Aggressive mode only appends reversed leet variants.
pub proof fn lemma_leet_layer_mono(w: Seq<char>, x: Seq<char>)
    requires
        leet_layer_spec(w, false).contains(x),
    ensures
        leet_layer_spec(w, true).contains(x),
{
    let nv = leet_layer_spec(w, false);
    let av = leet_layer_spec(w, true);
    let u = choose|u: int| 0 <= u < nv.len() && nv[u] == x;
    let n1 = leet_one(w, 'a', '@', false).len();
    let n2 = leet_one(w, 'o', '0', false).len();
    let n3 = leet_one(w, 'e', '3', false).len();
    let n4 = leet_one(w, 'i', '1', false).len();
    let a1 = leet_one(w, 'a', '@', true).len();
    let a2 = leet_one(w, 'o', '0', true).len();
    let a3 = leet_one(w, 'e', '3', true).len();
    let a4 = leet_one(w, 'i', '1', true).len();
    if u < 1 {
        assert(av[0] == x);
    } else if u < 1 + n1 {
        assert(leet_one(w, 'a', '@', false)[u - 1] == x);
        assert(leet_one(w, 'a', '@', true)[0] == x);
        assert(av[1int] == x);
    } else if u < 1 + n1 + n2 {
        assert(leet_one(w, 'o', '0', false)[u - 1 - n1] == x);
        assert(leet_one(w, 'o', '0', true)[0] == x);
        assert(av[1 + a1 as int] == x);
    } else if u < 1 + n1 + n2 + n3 {
        assert(leet_one(w, 'e', '3', false)[u - 1 - n1 - n2] == x);
        assert(leet_one(w, 'e', '3', true)[0] == x);
        assert(av[1 + a1 as int + a2 as int] == x);
    } else if u < 1 + n1 + n2 + n3 + n4 {
        assert(leet_one(w, 'i', '1', false)[u - 1 - n1 - n2 - n3] == x);
        assert(leet_one(w, 'i', '1', true)[0] == x);
        assert(av[1 + a1 as int + a2 as int + a3 as int] == x);
    } else {
        assert(leet_one(w, 's', '$', false)[u - 1 - n1 - n2 - n3 - n4] == x);
        assert(leet_one(w, 's', '$', true)[0] == x);
        assert(av[1 + a1 as int + a2 as int + a3 as int + a4 as int] == x);
    }
}

} // verus!
