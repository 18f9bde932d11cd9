//! The mutation engine: expansion of segment sequences with reversed order
//! and date fragments, the case-variant cartesian combinator, the per-word
//! transformation pipeline, and the parallel orchestrator that merges every
//! worker's qualifying candidates into one deduplicated, canonically sorted
//! result.

use vstd::prelude::*;

use rayon::iter::IntoParallelRefIterator;
use rayon::iter::ParallelIterator;

use crate::categories::Category;
use crate::categories::cats_match;
use crate::categories::collect_categories;
use crate::categories::date_fragment_set;
use crate::categories::derive_date_fragments;
use crate::categories::nonempty_category_sets;
use crate::models::Persona;
use crate::models::PasswordPolicy;
use crate::order::append_clones;
use crate::order::clone_strings;
use crate::order::lemma_sorted_unique;
use crate::order::push_owned;
use crate::order::sort_dedup;
use crate::order::strictly_sorted;
use crate::policy::policy_ok;
use crate::policy::validate;
use crate::segments::all_values;
use crate::segments::cross_categories_segments;
use crate::segments::lemma_segment_seqs_depth_mono;
use crate::segments::segment_seqs;
use crate::segments::spec_depth;
use crate::spec_length_ok;
use crate::length_ok;
use crate::transform::case_variants;
use crate::transform::leet_layer;
use crate::transform::leet_layer_spec;
use crate::transform::numeric_layer;
use crate::transform::numeric_layer_spec;
use crate::transform::lemma_leet_layer_mono;
use crate::transform::lemma_numeric_layer_mono;
use crate::transform::lemma_symbol_layer_mono;
use crate::transform::lemma_variant_set_mono;
use crate::transform::symbol_layer;
use crate::transform::symbol_layer_spec;
use crate::transform::variant_set;

verus! {

/// The fragment-augmented variants of one sequence, from fragment `k` on:
/// for each fragment, the sequence with it appended, then with it prepended.
pub open spec fn frag_exp(s: Seq<Seq<char>>, frags: Seq<Seq<char>>, k: int) -> Seq<
    Seq<Seq<char>>,
>
    decreases frags.len() - k,
{
    if k < 0 || k >= frags.len() {
        Seq::empty()
    } else {
        seq![s.push(frags[k]), seq![frags[k]] + s] + frag_exp(s, frags, k + 1)
    }
}

/// The expansion of one segment sequence: the sequence itself, the sequence
/// with segment order reversed (not character reversal), and each date
/// fragment appended and prepended — `2 + 2k` sequences for `k` fragments.
pub open spec fn expansion_spec(s: Seq<Seq<char>>, frags: Seq<Seq<char>>) -> Seq<Seq<Seq<char>>> {
    seq![s, s.reverse()] + frag_exp(s, frags, 0)
}

fn push_group(out: &mut Vec<Vec<String>>, v: Vec<String>)
    ensures
        final(out).deep_view() == old(out).deep_view().push(v.deep_view()),
{
    let ghost before = out.deep_view();
    out.push(v);
    proof {
        let after = out.deep_view();
        assert(after.len() == before.len() + 1);
        assert(forall|t: int| 0 <= t < before.len() ==> after[t] == before[t]);
        assert(after =~= before.push(after[after.len() - 1]));
    }
}

fn reverse_strings(v: &Vec<String>) -> (r: Vec<String>)
    ensures
        r.deep_view() == v.deep_view().reverse(),
{
    let len = v.len();
    let mut out: Vec<String> = Vec::new();
    let mut i: usize = 0;
    while i < len
        invariant
            i <= len,
            len == v.len(),
            out.deep_view() =~= v.deep_view().reverse().take(i as int),
        decreases len - i,
    {
        push_owned(&mut out, v[len - 1 - i].clone());
        proof {
            assert(out.deep_view() =~= v.deep_view().reverse().take(i + 1));
        }
        i += 1;
    }
    proof {
        assert(v.deep_view().reverse().take(len as int) =~= v.deep_view().reverse());
    }
    out
}

/// Expands one segment sequence with its reversed order and every date
/// fragment as an extra leading or trailing segment.
pub fn expand_sequence(segments: &Vec<String>, fragments: &Vec<String>) -> (r: Vec<Vec<String>>)
    ensures
        r.deep_view() == expansion_spec(segments.deep_view(), fragments.deep_view()),
{
    let ghost sv = segments.deep_view();
    let ghost fv = fragments.deep_view();
    let mut out: Vec<Vec<String>> = Vec::new();
    push_group(&mut out, clone_strings(segments));
    push_group(&mut out, reverse_strings(segments));
    let flen = fragments.len();
    let mut k: usize = 0;
    proof {
        assert(out.deep_view() =~= seq![sv, sv.reverse()]);
    }
    while k < flen
        invariant
            k <= flen,
            flen == fragments.len(),
            sv == segments.deep_view(),
            fv == fragments.deep_view(),
            out.deep_view() + frag_exp(sv, fv, k as int) =~= expansion_spec(sv, fv),
        decreases flen - k,
    {
        let ghost mid = out.deep_view();
        let mut with_suffix = clone_strings(segments);
        push_owned(&mut with_suffix, fragments[k].clone());
        push_group(&mut out, with_suffix);
        let mut with_prefix: Vec<String> = Vec::new();
        push_owned(&mut with_prefix, fragments[k].clone());
        append_clones(&mut with_prefix, segments);
        proof {
            assert(with_prefix.deep_view() =~= seq![fv[k as int]] + sv);
        }
        push_group(&mut out, with_prefix);
        proof {
            assert(frag_exp(sv, fv, k as int) =~= seq![sv.push(fv[k as int]), seq![fv[k as int]] + sv]
                + frag_exp(sv, fv, k + 1));
            assert(out.deep_view() + frag_exp(sv, fv, k + 1) =~= mid + frag_exp(sv, fv, k as int));
        }
        k += 1;
    }
    proof {
        assert(frag_exp(sv, fv, flen as int) =~= Seq::<Seq<Seq<char>>>::empty());
        assert(out.deep_view() =~= out.deep_view() + frag_exp(sv, fv, flen as int));
    }
    out
}

/// Every full string the case combinator can produce from position `k` on:
/// one case variant chosen per position, concatenated with no separator.
pub open spec fn combos_set(segs: Seq<Seq<char>>, k: int, aggressive: bool) -> Set<Seq<char>>
    decreases segs.len() - k,
{
    if k < 0 || k >= segs.len() {
        set![Seq::<char>::empty()]
    } else {
        Set::new(
            |x: Seq<char>|
                exists|v: Seq<char>, r: Seq<char>|
                    variant_set(segs[k], aggressive).contains(v) && combos_set(
                        segs,
                        k + 1,
                        aggressive,
                    ).contains(r) && x == v + r,
        )
    }
}

fn combine(segs: &Vec<String>, k: usize, prefix: &String, aggressive: bool, out: &mut Vec<String>)
    requires
        k <= segs@.len(),
    ensures
        final(out).deep_view().to_set() == old(out).deep_view().to_set().union(
            combos_set(segs.deep_view(), k as int, aggressive).map(|r: Seq<char>| prefix@ + r),
        ),
    decreases segs@.len() - k,
{
    let ghost sv = segs.deep_view();
    let ghost base = out.deep_view().to_set();
    let ghost base_dv = out.deep_view();
    if k == segs.len() {
        push_owned(out, prefix.clone());
        proof {
            let goal = base.union(
                combos_set(sv, k as int, aggressive).map(|r: Seq<char>| prefix@ + r),
            );
            assert(combos_set(sv, k as int, aggressive) == set![Seq::<char>::empty()]);
            assert(out.deep_view().to_set() =~= goal) by {
                assert(prefix@ + Seq::<char>::empty() =~= prefix@);
                assert(combos_set(sv, k as int, aggressive).contains(Seq::<char>::empty()));
                assert(goal.contains(prefix@));
                assert forall|x: Seq<char>| goal.contains(x) implies out.deep_view(
                ).to_set().contains(x) by {
                    if base.contains(x) {
                        let t = choose|t: int| 0 <= t < base_dv.len() && base_dv[t] == x;
                        assert(out.deep_view()[t] == x);
                    } else {
                        let r = choose|r: Seq<char>|
                            combos_set(sv, k as int, aggressive).contains(r) && x == prefix@ + r;
                        assert(r == Seq::<char>::empty());
                        assert(x == prefix@ + Seq::<char>::empty());
                        assert(out.deep_view()[out.deep_view().len() - 1] == x);
                    }
                }
            }
        }
        return ;
    }
    let variants = case_variants(segs[k].as_str(), aggressive);
    let ghost vv = variants.deep_view();
    let vlen = variants.len();
    let slen = segs.len();
    let mut j: usize = 0;
    while j < vlen
        invariant
            j <= vlen,
            k < slen,
            slen == segs@.len(),
            k < sv.len(),
            k < segs@.len(),
            vlen == variants.len(),
            vv == variants.deep_view(),
            sv == segs.deep_view(),
            vv.to_set() == variant_set(sv[k as int], aggressive),
            out.deep_view().to_set() =~= base.union(
                Set::new(
                    |x: Seq<char>|
                        exists|t: int, r: Seq<char>|
                            #![trigger vv[t], combos_set(sv, k as int + 1, aggressive).contains(r)]
                            0 <= t < j && combos_set(sv, k as int + 1, aggressive).contains(r) && x
                                == (prefix@ + vv[t]) + r,
                ),
            ),
        decreases vlen - j,
    {
        let next_prefix = prefix.clone().concat(variants[j].as_str());
        let ghost mid = out.deep_view().to_set();
        combine(segs, k + 1, &next_prefix, aggressive, out);
        proof {
            assert(next_prefix@ == prefix@ + vv[j as int]);
            assert(out.deep_view().to_set() =~= base.union(
                Set::new(
                    |x: Seq<char>|
                        exists|t: int, r: Seq<char>|
                            #![trigger vv[t], combos_set(sv, k as int + 1, aggressive).contains(r)]
                            0 <= t < j + 1 && combos_set(sv, k as int + 1, aggressive).contains(r)
                                && x == (prefix@ + vv[t]) + r,
                ),
            )) by {
                assert forall|x: Seq<char>| out.deep_view().to_set().contains(x) implies base.union(
                    Set::new(
                        |x2: Seq<char>|
                            exists|t: int, r: Seq<char>|
                                #![trigger vv[t], combos_set(sv, k as int + 1, aggressive).contains(r)]
                                0 <= t < j + 1 && combos_set(sv, k as int + 1, aggressive).contains(
                                    r,
                                ) && x2 == (prefix@ + vv[t]) + r,
                    ),
                ).contains(x) by {
                    if mid.contains(x) {
                    } else {
                        let r = choose|r: Seq<char>|
                            combos_set(sv, k as int + 1, aggressive).contains(r) && x
                                == next_prefix@ + r;
                        assert(x == (prefix@ + vv[j as int]) + r);
                    }
                }
                assert forall|x: Seq<char>|
                    base.union(
                        Set::new(
                            |x2: Seq<char>|
                                exists|t: int, r: Seq<char>|
                                    #![trigger vv[t], combos_set(sv, k as int + 1, aggressive).contains(r)]
                                    0 <= t < j + 1 && combos_set(
                                        sv,
                                        k as int + 1,
                                        aggressive,
                                    ).contains(r) && x2 == (prefix@ + vv[t]) + r,
                        ),
                    ).contains(x) implies out.deep_view().to_set().contains(x) by {
                    if !base.contains(x) {
                        let (t, r) = choose|t: int, r: Seq<char>|
                            #![trigger vv[t], combos_set(sv, k as int + 1, aggressive).contains(r)]
                            0 <= t < j + 1 && combos_set(sv, k as int + 1, aggressive).contains(r)
                                && x == (prefix@ + vv[t]) + r;
                        if t < j {
                            assert(mid.contains(x));
                        } else {
                            assert(x == next_prefix@ + r);
                        }
                    }
                }
            }
        }
        j += 1;
    }
    proof {
        let goal = base.union(
            combos_set(sv, k as int, aggressive).map(|r: Seq<char>| prefix@ + r),
        );
        assert(out.deep_view().to_set() =~= goal) by {
            assert forall|x: Seq<char>| out.deep_view().to_set().contains(x) implies goal.contains(
                x,
            ) by {
                if !base.contains(x) {
                    let (t, r) = choose|t: int, r: Seq<char>|
                        #![trigger vv[t], combos_set(sv, k as int + 1, aggressive).contains(r)]
                        0 <= t < vlen && combos_set(sv, k as int + 1, aggressive).contains(r) && x
                            == (prefix@ + vv[t]) + r;
                    let v = vv[t];
                    assert(vv.to_set().contains(v));
                    assert(variant_set(sv[k as int], aggressive).contains(v));
                    assert(combos_set(sv, k as int, aggressive).contains(v + r));
                    assert((prefix@ + v) + r =~= prefix@ + (v + r));
                }
            }
            assert forall|x: Seq<char>| goal.contains(x) implies out.deep_view(
            ).to_set().contains(x) by {
                if !base.contains(x) {
                    let y = choose|y: Seq<char>|
                        combos_set(sv, k as int, aggressive).contains(y) && x == prefix@ + y;
                    let (v, r) = choose|v: Seq<char>, r: Seq<char>|
                        variant_set(sv[k as int], aggressive).contains(v) && combos_set(
                            sv,
                            k as int + 1,
                            aggressive,
                        ).contains(r) && y == v + r;
                    assert(vv.to_set().contains(v));
                    let t = choose|t: int| 0 <= t < vv.len() && vv[t] == v;
                    assert((prefix@ + vv[t]) + r =~= prefix@ + (v + r));
                }
            }
        }
    }
}

/// Produces every cartesian combination of per-segment case variants,
/// concatenated with no separator, by depth-first recursion over positions.
pub fn segment_case_combinations(segments: &Vec<String>, aggressive: bool) -> (r: Vec<String>)
    ensures
        r.deep_view().to_set() == combos_set(segments.deep_view(), 0, aggressive),
{
    let mut out: Vec<String> = Vec::new();
    let prefix = String::new();
    combine(segments, 0, &prefix, aggressive, &mut out);
    proof {
        let sv = segments.deep_view();
        assert(out.deep_view().to_set() =~= combos_set(sv, 0, aggressive)) by {
            assert forall|x: Seq<char>| combos_set(sv, 0, aggressive).contains(x) implies out
                .deep_view().to_set().contains(x) by {
                assert(Seq::<char>::empty() + x =~= x);
                assert(combos_set(sv, 0, aggressive).map(|r: Seq<char>| Seq::<char>::empty() + r)
                    .contains(Seq::<char>::empty() + x));
            }
            assert forall|x: Seq<char>| out.deep_view().to_set().contains(x) implies combos_set(
                sv,
                0,
                aggressive,
            ).contains(x) by {
                let r = choose|r: Seq<char>|
                    combos_set(sv, 0, aggressive).contains(r) && x == Seq::<char>::empty() + r;
                assert(Seq::<char>::empty() + r =~= r);
            }
        }
    }
    out
}

/// Every qualifying transformation of one joined word: a numeric variant,
/// then a symbol variant of it, then a leet variant of that, kept when the
/// final length is within bounds. A word already over `max_length` yields
/// nothing.
pub open spec fn word_results(j: Seq<char>, policy: PasswordPolicy, aggressive: bool) -> Set<
    Seq<char>,
> {
    if j.len() > policy.max_length {
        Set::empty()
    } else {
        Set::new(
            |x: Seq<char>|
                exists|n: Seq<char>, s: Seq<char>|
                    #![trigger numeric_layer_spec(j, policy, aggressive).contains(n), symbol_layer_spec(n, policy, aggressive).contains(s)]
                    numeric_layer_spec(j, policy, aggressive).contains(n) && symbol_layer_spec(
                        n,
                        policy,
                        aggressive,
                    ).contains(s) && leet_layer_spec(s, aggressive).contains(x) && spec_length_ok(
                        x,
                        policy,
                    ),
        )
    }
}

spec fn words_upto(nv: Seq<Seq<char>>, i: int, policy: PasswordPolicy, aggressive: bool) -> Set<
    Seq<char>,
> {
    Set::new(
        |x: Seq<char>|
            exists|n: Seq<char>, s: Seq<char>|
                #![trigger nv.take(i).contains(n), symbol_layer_spec(n, policy, aggressive).contains(s)]
                nv.take(i).contains(n) && symbol_layer_spec(n, policy, aggressive).contains(s)
                    && leet_layer_spec(s, aggressive).contains(x) && spec_length_ok(x, policy),
    )
}

spec fn sym_words_upto(sv: Seq<Seq<char>>, k: int, policy: PasswordPolicy, aggressive: bool) -> Set<
    Seq<char>,
> {
    Set::new(
        |x: Seq<char>|
            exists|s: Seq<char>|
                sv.take(k).contains(s) && leet_layer_spec(s, aggressive).contains(x)
                    && spec_length_ok(x, policy),
    )
}

spec fn leet_words_upto(lv: Seq<Seq<char>>, t: int, policy: PasswordPolicy) -> Set<Seq<char>> {
    Set::new(|x: Seq<char>| lv.take(t).contains(x) && spec_length_ok(x, policy))
}

/// Runs one joined word through the numeric, symbol and leet layers in that
/// fixed order and keeps the outputs whose length is within bounds.
pub fn transform_word(joined: &String, policy: &PasswordPolicy, aggressive: bool) -> (r: Vec<
    String,
>)
    ensures
        r.deep_view().to_set() == word_results(joined@, *policy, aggressive),
{
    let mut out: Vec<String> = Vec::new();
    let jlen = joined.as_str().unicode_len();
    if jlen > policy.max_length {
        proof {
            assert(out.deep_view().to_set() =~= word_results(joined@, *policy, aggressive));
        }
        return out;
    }
    let nums = numeric_layer(joined.as_str(), policy, aggressive);
    let ghost nv = nums.deep_view();
    let nlen = nums.len();
    proof {
        assert(out.deep_view().to_set() =~= words_upto(nv, 0, *policy, aggressive));
    }
    let mut i: usize = 0;
    while i < nlen
        invariant
            i <= nlen,
            nlen == nums.len(),
            nv == nums.deep_view(),
            out.deep_view().to_set() == words_upto(nv, i as int, *policy, aggressive),
        decreases nlen - i,
    {
        let syms = symbol_layer(nums[i].as_str(), policy, aggressive);
        let ghost sv = syms.deep_view();
        let slen = syms.len();
        let ghost before_sym = out.deep_view().to_set();
        let mut k: usize = 0;
        proof {
            assert(sym_words_upto(sv, 0, *policy, aggressive) =~= Set::<Seq<char>>::empty());
        }
        while k < slen
            invariant
                k <= slen,
                i < nlen,
                nlen == nums.len(),
                nv == nums.deep_view(),
                slen == syms.len(),
                sv == syms.deep_view(),
                sv == symbol_layer_spec(nv[i as int], *policy, aggressive),
                before_sym == words_upto(nv, i as int, *policy, aggressive),
                out.deep_view().to_set() == before_sym.union(
                    sym_words_upto(sv, k as int, *policy, aggressive),
                ),
            decreases slen - k,
        {
            let leets = leet_layer(syms[k].as_str(), aggressive);
            let ghost lv = leets.deep_view();
            let llen = leets.len();
            let ghost before_leet = out.deep_view().to_set();
            let mut t: usize = 0;
            proof {
                assert(leet_words_upto(lv, 0, *policy) =~= Set::<Seq<char>>::empty());
            }
            while t < llen
                invariant
                    t <= llen,
                    k < slen,
                    slen == syms.len(),
                    sv == syms.deep_view(),
                    llen == leets.len(),
                    lv == leets.deep_view(),
                    lv == leet_layer_spec(sv[k as int], aggressive),
                    out.deep_view().to_set() == before_leet.union(
                        leet_words_upto(lv, t as int, *policy),
                    ),
                decreases llen - t,
            {
                let ghost prev = out.deep_view();
                if length_ok(leets[t].as_str(), policy) {
                    push_owned(&mut out, leets[t].clone());
                }
                proof {
                    assert(out.deep_view().to_set() =~= before_leet.union(
                        leet_words_upto(lv, t + 1, *policy),
                    )) by {
                        assert forall|x: Seq<char>| out.deep_view().to_set().contains(
                            x,
                        ) implies before_leet.union(leet_words_upto(lv, t + 1, *policy)).contains(
                            x,
                        ) by {
                            if prev.to_set().contains(x) {
                                if !before_leet.contains(x) {
                                    let u = choose|u: int|
                                        0 <= u < t && #[trigger] lv.take(t as int)[u] == x;
                                    assert(lv.take(t + 1)[u] == x);
                                }
                            } else {
                                assert(x == lv[t as int] && spec_length_ok(x, *policy));
                                assert(lv.take(t + 1)[t as int] == x);
                            }
                        }
                        assert forall|x: Seq<char>|
                            before_leet.union(leet_words_upto(lv, t + 1, *policy)).contains(
                                x,
                            ) implies out.deep_view().to_set().contains(x) by {
                            if before_leet.contains(x) {
                                assert(prev.to_set().contains(x));
                                let u = choose|u: int| 0 <= u < prev.len() && prev[u] == x;
                                assert(out.deep_view()[u] == x);
                            } else if leet_words_upto(lv, t + 1, *policy).contains(x) {
                                let u = choose|u: int|
                                    0 <= u < t + 1 && #[trigger] lv.take(t + 1)[u] == x;
                                if u < t {
                                    assert(lv.take(t as int)[u] == x);
                                    assert(leet_words_upto(lv, t as int, *policy).contains(x));
                                    assert(prev.to_set().contains(x));
                                    let w = choose|w: int| 0 <= w < prev.len() && prev[w] == x;
                                    assert(out.deep_view()[w] == x);
                                } else {
                                    assert(x == lv[t as int] && spec_length_ok(x, *policy));
                                    assert(out.deep_view()[out.deep_view().len() - 1] == x);
                                }
                            }
                        }
                    }
                }
                t += 1;
            }
            proof {
                assert(lv.take(llen as int) =~= lv);
                assert(out.deep_view().to_set() =~= before_sym.union(
                    sym_words_upto(sv, k + 1, *policy, aggressive),
                )) by {
                    assert forall|x: Seq<char>| out.deep_view().to_set().contains(
                        x,
                    ) implies before_sym.union(sym_words_upto(sv, k + 1, *policy, aggressive))
                        .contains(x) by {
                        if before_leet.contains(x) {
                            if !before_sym.contains(x) {
                                let s = choose|s: Seq<char>|
                                    (#[trigger] sv.take(k as int).contains(s)) && leet_layer_spec(
                                        s,
                                        aggressive,
                                    ).contains(x) && spec_length_ok(x, *policy);
                                let u = choose|u: int|
                                    0 <= u < k && #[trigger] sv.take(k as int)[u] == s;
                                assert(sv.take(k + 1)[u] == s);
                                assert(sv.take(k + 1).contains(s));
                            }
                        } else {
                            assert(leet_words_upto(lv, llen as int, *policy).contains(x));
                            assert(sv.take(k + 1)[k as int] == sv[k as int]);
                            assert(sv.take(k + 1).contains(sv[k as int]));
                        }
                    }
                    assert forall|x: Seq<char>|
                        before_sym.union(sym_words_upto(sv, k + 1, *policy, aggressive)).contains(
                            x,
                        ) implies out.deep_view().to_set().contains(x) by {
                        if !before_sym.contains(x) {
                            let s = choose|s: Seq<char>|
                                (#[trigger] sv.take(k + 1).contains(s)) && leet_layer_spec(
                                    s,
                                    aggressive,
                                ).contains(x) && spec_length_ok(x, *policy);
                            let u = choose|u: int| 0 <= u < k + 1 && #[trigger] sv.take(k + 1)[u]
                                == s;
                            if u < k {
                                assert(sv.take(k as int)[u] == s);
                                assert(sv.take(k as int).contains(s));
                                assert(sym_words_upto(sv, k as int, *policy, aggressive).contains(
                                    x,
                                ));
                                assert(before_leet.contains(x));
                            } else {
                                assert(s == sv[k as int]);
                                assert(lv.contains(x) && spec_length_ok(x, *policy));
                                let w = choose|w: int| 0 <= w < lv.len() && lv[w] == x;
                                assert(lv.take(llen as int)[w] == x);
                                assert(leet_words_upto(lv, llen as int, *policy).contains(x));
                            }
                        }
                    }
                }
            }
            k += 1;
        }
        proof {
            assert(sv.take(slen as int) =~= sv);
            assert(out.deep_view().to_set() =~= words_upto(nv, i + 1, *policy, aggressive)) by {
                assert forall|x: Seq<char>| out.deep_view().to_set().contains(
                    x,
                ) implies words_upto(nv, i + 1, *policy, aggressive).contains(x) by {
                    if before_sym.contains(x) {
                        let (n, s) = choose|n: Seq<char>, s: Seq<char>|
                            #![trigger nv.take(i as int).contains(n), symbol_layer_spec(n, *policy, aggressive).contains(s)]
                            nv.take(i as int).contains(n) && symbol_layer_spec(
                                n,
                                *policy,
                                aggressive,
                            ).contains(s) && leet_layer_spec(s, aggressive).contains(x)
                                && spec_length_ok(x, *policy);
                        let u = choose|u: int| 0 <= u < i && #[trigger] nv.take(i as int)[u] == n;
                        assert(nv.take(i + 1)[u] == n);
                        assert(nv.take(i + 1).contains(n));
                    } else {
                        assert(sym_words_upto(sv, slen as int, *policy, aggressive).contains(x));
                        let s = choose|s: Seq<char>|
                            (#[trigger] sv.take(slen as int).contains(s)) && leet_layer_spec(
                                s,
                                aggressive,
                            ).contains(x) && spec_length_ok(x, *policy);
                        assert(nv.take(i + 1)[i as int] == nv[i as int]);
                        assert(nv.take(i + 1).contains(nv[i as int]));
                        assert(symbol_layer_spec(nv[i as int], *policy, aggressive).contains(s));
                    }
                }
                assert forall|x: Seq<char>| words_upto(nv, i + 1, *policy, aggressive).contains(
                    x,
                ) implies out.deep_view().to_set().contains(x) by {
                    let (n, s) = choose|n: Seq<char>, s: Seq<char>|
                        #![trigger nv.take(i + 1).contains(n), symbol_layer_spec(n, *policy, aggressive).contains(s)]
                        nv.take(i + 1).contains(n) && symbol_layer_spec(
                            n,
                            *policy,
                            aggressive,
                        ).contains(s) && leet_layer_spec(s, aggressive).contains(x)
                            && spec_length_ok(x, *policy);
                    let u = choose|u: int| 0 <= u < i + 1 && #[trigger] nv.take(i + 1)[u] == n;
                    if u < i {
                        assert(nv.take(i as int)[u] == n);
                        assert(nv.take(i as int).contains(n));
                        assert(words_upto(nv, i as int, *policy, aggressive).contains(x));
                    } else {
                        assert(n == nv[i as int]);
                        let w = choose|w: int| 0 <= w < sv.len() && sv[w] == s;
                        assert(sv.take(slen as int)[w] == s);
                        assert(sv.take(slen as int).contains(s));
                        assert(sym_words_upto(sv, slen as int, *policy, aggressive).contains(x));
                    }
                }
            }
        }
        i += 1;
    }
    proof {
        assert(nv.take(nlen as int) =~= nv);
        assert(out.deep_view().to_set() =~= word_results(joined@, *policy, aggressive)) by {
            assert forall|x: Seq<char>| out.deep_view().to_set().contains(
                x,
            ) implies word_results(joined@, *policy, aggressive).contains(x) by {
                let (n, s) = choose|n: Seq<char>, s: Seq<char>|
                    #![trigger nv.take(nlen as int).contains(n), symbol_layer_spec(n, *policy, aggressive).contains(s)]
                    nv.take(nlen as int).contains(n) && symbol_layer_spec(
                        n,
                        *policy,
                        aggressive,
                    ).contains(s) && leet_layer_spec(s, aggressive).contains(x) && spec_length_ok(
                        x,
                        *policy,
                    );
            }
            assert forall|x: Seq<char>| word_results(joined@, *policy, aggressive).contains(
                x,
            ) implies out.deep_view().to_set().contains(x) by {
                let (n, s) = choose|n: Seq<char>, s: Seq<char>|
                    #![trigger numeric_layer_spec(joined@, *policy, aggressive).contains(n), symbol_layer_spec(n, *policy, aggressive).contains(s)]
                    numeric_layer_spec(joined@, *policy, aggressive).contains(n)
                        && symbol_layer_spec(n, *policy, aggressive).contains(s)
                        && leet_layer_spec(s, aggressive).contains(x) && spec_length_ok(
                        x,
                        *policy,
                    );
                assert(nv.take(nlen as int).contains(n));
                assert(words_upto(nv, nlen as int, *policy, aggressive).contains(x));
            }
        }
    }
    out
}


/// Every qualifying candidate one base segment sequence yields: some
/// expansion of it, some case combination of that expansion, and some
/// transformation of that joined word.
pub open spec fn sequence_candidates(
    ss: Seq<Seq<char>>,
    fv: Seq<Seq<char>>,
    policy: PasswordPolicy,
    aggressive: bool,
) -> Set<Seq<char>> {
    Set::new(
        |x: Seq<char>|
            exists|e: Seq<Seq<char>>, jn: Seq<char>|
                #![trigger expansion_spec(ss, fv).contains(e), word_results(jn, policy, aggressive).contains(x)]
                expansion_spec(ss, fv).contains(e) && combos_set(e, 0, aggressive).contains(jn)
                    && word_results(jn, policy, aggressive).contains(x),
    )
}

spec fn cand_upto(
    ev: Seq<Seq<Seq<char>>>,
    e: int,
    policy: PasswordPolicy,
    aggressive: bool,
) -> Set<Seq<char>> {
    Set::new(
        |x: Seq<char>|
            exists|t: int, jn: Seq<char>|
                #![trigger combos_set(ev[t], 0, aggressive).contains(jn)]
                0 <= t < e && combos_set(ev[t], 0, aggressive).contains(jn) && word_results(
                    jn,
                    policy,
                    aggressive,
                ).contains(x),
    )
}

spec fn joined_upto(
    jv: Seq<Seq<char>>,
    j: int,
    policy: PasswordPolicy,
    aggressive: bool,
) -> Set<Seq<char>> {
    Set::new(
        |x: Seq<char>|
            exists|jn: Seq<char>|
                jv.take(j).contains(jn) && word_results(jn, policy, aggressive).contains(x),
    )
}

/// One worker's task: runs the full expansion, case combination and
/// transformation pipeline over one base segment sequence.
pub fn process_sequence(
    segments: &Vec<String>,
    fragments: &Vec<String>,
    policy: &PasswordPolicy,
    aggressive: bool,
) -> (r: Vec<String>)
    ensures
        r.deep_view().to_set() == sequence_candidates(
            segments.deep_view(),
            fragments.deep_view(),
            *policy,
            aggressive,
        ),
{
    let ghost ssv = segments.deep_view();
    let ghost fv = fragments.deep_view();
    let expanded = expand_sequence(segments, fragments);
    let ghost ev = expanded.deep_view();
    let elen = expanded.len();
    let mut out: Vec<String> = Vec::new();
    proof {
        assert(out.deep_view().to_set() =~= cand_upto(ev, 0, *policy, aggressive));
    }
    let mut e: usize = 0;
    while e < elen
        invariant
            e <= elen,
            elen == expanded.len(),
            ev == expanded.deep_view(),
            out.deep_view().to_set() == cand_upto(ev, e as int, *policy, aggressive),
        decreases elen - e,
    {
        let joineds = segment_case_combinations(&expanded[e], aggressive);
        let ghost jv = joineds.deep_view();
        let jlen = joineds.len();
        let ghost before = out.deep_view().to_set();
        let mut j: usize = 0;
        proof {
            assert(joined_upto(jv, 0, *policy, aggressive) =~= Set::<Seq<char>>::empty());
            assert(expanded@[e as int].deep_view() == ev[e as int]);
        }
        while j < jlen
            invariant
                j <= jlen,
                e < elen,
                elen == expanded.len(),
                ev == expanded.deep_view(),
                jlen == joineds.len(),
                jv == joineds.deep_view(),
                jv.to_set() == combos_set(ev[e as int], 0, aggressive),
                before == cand_upto(ev, e as int, *policy, aggressive),
                out.deep_view().to_set() == before.union(
                    joined_upto(jv, j as int, *policy, aggressive),
                ),
            decreases jlen - j,
        {
            let ghost prev = out.deep_view();
            let ws = transform_word(&joineds[j], policy, aggressive);
            let ghost wv = ws.deep_view();
            append_clones(&mut out, &ws);
            proof {
                assert(out.deep_view().to_set() =~= before.union(
                    joined_upto(jv, j + 1, *policy, aggressive),
                )) by {
                    assert forall|x: Seq<char>| out.deep_view().to_set().contains(
                        x,
                    ) implies before.union(joined_upto(jv, j + 1, *policy, aggressive)).contains(
                        x,
                    ) by {
                        let u = choose|u: int|
                            0 <= u < out.deep_view().len() && out.deep_view()[u] == x;
                        if u < prev.len() {
                            assert(prev[u] == x);
                            assert(prev.to_set().contains(x));
                            if !before.contains(x) {
                                let jn = choose|jn: Seq<char>|
                                    (#[trigger] jv.take(j as int).contains(jn)) && word_results(
                                        jn,
                                        *policy,
                                        aggressive,
                                    ).contains(x);
                                let w = choose|w: int|
                                    0 <= w < j && #[trigger] jv.take(j as int)[w] == jn;
                                assert(jv.take(j + 1)[w] == jn);
                                assert(jv.take(j + 1).contains(jn));
                            }
                        } else {
                            assert(wv[u - prev.len()] == x);
                            assert(wv.to_set().contains(x));
                            assert(word_results(jv[j as int], *policy, aggressive).contains(x));
                            assert(jv.take(j + 1)[j as int] == jv[j as int]);
                            assert(jv.take(j + 1).contains(jv[j as int]));
                        }
                    }
                    assert forall|x: Seq<char>|
                        before.union(joined_upto(jv, j + 1, *policy, aggressive)).contains(
                            x,
                        ) implies out.deep_view().to_set().contains(x) by {
                        if before.contains(x) {
                            assert(prev.to_set().contains(x));
                            let u = choose|u: int| 0 <= u < prev.len() && prev[u] == x;
                            assert(out.deep_view()[u] == x);
                        } else {
                            let jn = choose|jn: Seq<char>|
                                (#[trigger] jv.take(j + 1).contains(jn)) && word_results(
                                    jn,
                                    *policy,
                                    aggressive,
                                ).contains(x);
                            let w = choose|w: int| 0 <= w < j + 1 && #[trigger] jv.take(j + 1)[w]
                                == jn;
                            if w < j {
                                assert(jv.take(j as int)[w] == jn);
                                assert(jv.take(j as int).contains(jn));
                                assert(joined_upto(jv, j as int, *policy, aggressive).contains(x));
                                assert(prev.to_set().contains(x));
                                let u = choose|u: int| 0 <= u < prev.len() && prev[u] == x;
                                assert(out.deep_view()[u] == x);
                            } else {
                                assert(jn == jv[j as int]);
                                assert(wv.to_set().contains(x));
                                let u = choose|u: int| 0 <= u < wv.len() && wv[u] == x;
                                assert(out.deep_view()[prev.len() + u] == x);
                            }
                        }
                    }
                }
            }
            j += 1;
        }
        proof {
            assert(jv.take(jlen as int) =~= jv);
            assert(out.deep_view().to_set() =~= cand_upto(ev, e + 1, *policy, aggressive)) by {
                assert forall|x: Seq<char>| out.deep_view().to_set().contains(x) implies cand_upto(
                    ev,
                    e + 1,
                    *policy,
                    aggressive,
                ).contains(x) by {
                    if before.contains(x) {
                        let (t, jn) = choose|t: int, jn: Seq<char>|
                            #![trigger combos_set(ev[t], 0, aggressive).contains(jn)]
                            0 <= t < e && combos_set(ev[t], 0, aggressive).contains(jn)
                                && word_results(jn, *policy, aggressive).contains(x);
                    } else {
                        let jn = choose|jn: Seq<char>|
                            (#[trigger] jv.take(jlen as int).contains(jn)) && word_results(
                                jn,
                                *policy,
                                aggressive,
                            ).contains(x);
                        assert(jv.to_set().contains(jn));
                        assert(combos_set(ev[e as int], 0, aggressive).contains(jn));
                    }
                }
                assert forall|x: Seq<char>| cand_upto(ev, e + 1, *policy, aggressive).contains(
                    x,
                ) implies out.deep_view().to_set().contains(x) by {
                    let (t, jn) = choose|t: int, jn: Seq<char>|
                        #![trigger combos_set(ev[t], 0, aggressive).contains(jn)]
                        0 <= t < e + 1 && combos_set(ev[t], 0, aggressive).contains(jn)
                            && word_results(jn, *policy, aggressive).contains(x);
                    if t < e {
                        assert(cand_upto(ev, e as int, *policy, aggressive).contains(x));
                    } else {
                        assert(jv.to_set().contains(jn));
                        let w = choose|w: int| 0 <= w < jv.len() && jv[w] == jn;
                        assert(jv.take(jlen as int)[w] == jn);
                        assert(jv.take(jlen as int).contains(jn));
                        assert(joined_upto(jv, jlen as int, *policy, aggressive).contains(x));
                    }
                }
            }
        }
        e += 1;
    }
    proof {
        assert(out.deep_view().to_set() =~= sequence_candidates(ssv, fv, *policy, aggressive)) by {
            assert forall|x: Seq<char>| out.deep_view().to_set().contains(
                x,
            ) implies sequence_candidates(ssv, fv, *policy, aggressive).contains(x) by {
                let (t, jn) = choose|t: int, jn: Seq<char>|
                    #![trigger combos_set(ev[t], 0, aggressive).contains(jn)]
                    0 <= t < elen && combos_set(ev[t], 0, aggressive).contains(jn) && word_results(
                        jn,
                        *policy,
                        aggressive,
                    ).contains(x);
                assert(expansion_spec(ssv, fv).contains(ev[t]));
            }
            assert forall|x: Seq<char>| sequence_candidates(ssv, fv, *policy, aggressive).contains(
                x,
            ) implies out.deep_view().to_set().contains(x) by {
                let (ex, jn) = choose|ex: Seq<Seq<char>>, jn: Seq<char>|
                    #![trigger expansion_spec(ssv, fv).contains(ex), word_results(jn, *policy, aggressive).contains(x)]
                    expansion_spec(ssv, fv).contains(ex) && combos_set(ex, 0, aggressive).contains(
                        jn,
                    ) && word_results(jn, *policy, aggressive).contains(x);
                let t = choose|t: int| 0 <= t < ev.len() && ev[t] == ex;
                assert(combos_set(ev[t], 0, aggressive).contains(jn));
                assert(cand_upto(ev, elen as int, *policy, aggressive).contains(x));
            }
        }
    }
    out
}


/// Every qualifying candidate of the whole base list: the union of each
/// sequence's candidates, in whatever order the workers finish.
pub open spec fn all_sequence_candidates(
    base: Seq<Seq<Seq<char>>>,
    fv: Seq<Seq<char>>,
    policy: PasswordPolicy,
    aggressive: bool,
) -> Set<Seq<char>> {
    Set::new(
        |x: Seq<char>|
            exists|i: int|
                0 <= i < base.len() && sequence_candidates(
                    #[trigger] base[i],
                    fv,
                    policy,
                    aggressive,
                ).contains(x),
    )
}

/// Relies on rayon's `par_iter().flat_map(..).collect::<Vec<_>>()`: the
/// collected vector holds exactly the items the closure produced over every
/// element of the input, partitioned across the worker pool; only the order
/// is scheduling-dependent, so the element set is exact. The closure only
/// calls this library's `process_sequence`.
#[verifier::external_body]
fn par_candidates(
    base: &Vec<Vec<String>>,
    fragments: &Vec<String>,
    policy: &PasswordPolicy,
    aggressive: bool,
) -> (r: Vec<String>)
    ensures
        r.deep_view().to_set() == all_sequence_candidates(
            base.deep_view(),
            fragments.deep_view(),
            *policy,
            aggressive,
        ),
{
    base.par_iter().flat_map(|segs| process_sequence(segs, fragments, policy, aggressive)).collect()
}

/// The strictly sorted sequence holding exactly the given set of strings:
/// the canonical form every deduplicated collection of this library takes.
pub open spec fn sorted_of(s: Set<Seq<char>>) -> Seq<Seq<char>> {
    choose|q: Seq<Seq<char>>| strictly_sorted(q) && q.to_set() == s
}

/// The flattened category values: each non-empty group's canonical sorted
/// sequence, in group order.
pub open spec fn values_of_sets(sets: Seq<Set<Seq<char>>>) -> Seq<Seq<char>>
    decreases sets.len(),
{
    if sets.len() == 0 {
        Seq::empty()
    } else {
        values_of_sets(sets.drop_last()) + sorted_of(sets.last())
    }
}

proof fn lemma_all_values_match(cats: Seq<Category>, sets: Seq<Set<Seq<char>>>)
    requires
        cats_match(cats, sets),
    ensures
        all_values(cats) == values_of_sets(sets),
    decreases cats.len(),
{
    if cats.len() == 0 {
        assert(all_values(cats) =~= values_of_sets(sets));
    } else {
        assert(cats_match(cats.drop_last(), sets.drop_last())) by {
            assert(forall|i: int|
                0 <= i < cats.len() - 1 ==> cats.drop_last()[i] == cats[i] && sets.drop_last()[i]
                    == sets[i]);
        }
        lemma_all_values_match(cats.drop_last(), sets.drop_last());
        let lastv = cats.last().values.deep_view();
        let q = sorted_of(sets.last());
        assert(strictly_sorted(q) && q.to_set() == sets.last()) by {
            assert(strictly_sorted(lastv) && lastv.to_set() == sets[cats.len() - 1]);
        }
        lemma_sorted_unique(q, lastv);
    }
}

/// The mutation engine's final artifact: every candidate the pipeline can
/// produce from the persona that also satisfies the policy, as a set — a
/// pure function of the persona and the mode, independent of worker count
/// and of every ordering choice.
pub open spec fn mutation_set(p: Persona, aggressive: bool) -> Set<Seq<char>> {
    Set::new(
        |x: Seq<char>|
            all_sequence_candidates(
                segment_seqs(values_of_sets(nonempty_category_sets(p)), spec_depth(aggressive)),
                sorted_of(date_fragment_set(p)),
                p.policy,
                aggressive,
            ).contains(x) && policy_ok(x, p.policy),
    )
}

/// Drives the whole mutation path: categories and date fragments from the
/// persona, the bounded-depth segment cross-product, parallel expansion and
/// transformation, policy validation, and a final set-union merge returned
/// in canonical sorted order. The result is exactly `mutation_set`, for any
/// worker count and any merge order.
pub fn generate(persona: &Persona, aggressive: bool) -> (r: Vec<String>)
    ensures
        strictly_sorted(r.deep_view()),
        r.deep_view().to_set() == mutation_set(*persona, aggressive),
{
    let cats = collect_categories(persona);
    let frags = derive_date_fragments(persona);
    proof {
        lemma_all_values_match(cats@, nonempty_category_sets(*persona));
        let q = sorted_of(date_fragment_set(*persona));
        assert(strictly_sorted(q) && q.to_set() == date_fragment_set(*persona)) by {
            assert(strictly_sorted(frags.deep_view()) && frags.deep_view().to_set()
                == date_fragment_set(*persona));
        }
        lemma_sorted_unique(q, frags.deep_view());
    }
    let base = cross_categories_segments(&cats, aggressive);
    let raw = par_candidates(&base, &frags, &persona.policy, aggressive);
    let ghost rv = raw.deep_view();
    let rlen = raw.len();
    let mut kept: Vec<String> = Vec::new();
    proof {
        assert(kept.deep_view().to_set() =~= Set::new(
            |x: Seq<char>| rv.take(0).contains(x) && policy_ok(x, persona.policy),
        ));
    }
    let mut i: usize = 0;
    while i < rlen
        invariant
            i <= rlen,
            rlen == raw.len(),
            rv == raw.deep_view(),
            kept.deep_view().to_set() == Set::new(
                |x: Seq<char>| rv.take(i as int).contains(x) && policy_ok(x, persona.policy),
            ),
        decreases rlen - i,
    {
        let ghost prev = kept.deep_view();
        if validate(raw[i].as_str(), &persona.policy) {
            push_owned(&mut kept, raw[i].clone());
        }
        proof {
            assert(kept.deep_view().to_set() =~= Set::new(
                |x: Seq<char>| rv.take(i + 1).contains(x) && policy_ok(x, persona.policy),
            )) by {
                assert forall|x: Seq<char>| kept.deep_view().to_set().contains(x) implies Set::new(
                    |x2: Seq<char>| rv.take(i + 1).contains(x2) && policy_ok(x2, persona.policy),
                ).contains(x) by {
                    let u = choose|u: int|
                        0 <= u < kept.deep_view().len() && kept.deep_view()[u] == x;
                    if u < prev.len() {
                        assert(prev[u] == x);
                        assert(prev.to_set().contains(x));
                        let w = choose|w: int| 0 <= w < i && #[trigger] rv.take(i as int)[w] == x;
                        assert(rv.take(i + 1)[w] == x);
                    } else {
                        assert(x == rv[i as int]);
                        assert(rv.take(i + 1)[i as int] == x);
                    }
                }
                assert forall|x: Seq<char>|
                    Set::new(
                        |x2: Seq<char>| rv.take(i + 1).contains(x2) && policy_ok(
                            x2,
                            persona.policy,
                        ),
                    ).contains(x) implies kept.deep_view().to_set().contains(x) by {
                    let w = choose|w: int| 0 <= w < i + 1 && #[trigger] rv.take(i + 1)[w] == x;
                    if w < i {
                        assert(rv.take(i as int)[w] == x);
                        assert(rv.take(i as int).contains(x));
                        assert(prev.to_set().contains(x));
                        let u = choose|u: int| 0 <= u < prev.len() && prev[u] == x;
                        assert(kept.deep_view()[u] == x);
                    } else {
                        assert(x == rv[i as int]);
                        assert(kept.deep_view()[kept.deep_view().len() - 1] == x);
                    }
                }
            }
        }
        i += 1;
    }
    let out = sort_dedup(&kept);
    proof {
        assert(rv.take(rlen as int) =~= rv);
        assert(out.deep_view().to_set() =~= mutation_set(*persona, aggressive)) by {
            assert forall|x: Seq<char>| out.deep_view().to_set().contains(x) implies mutation_set(
                *persona,
                aggressive,
            ).contains(x) by {
                assert(rv.contains(x) && policy_ok(x, persona.policy));
                assert(rv.to_set().contains(x));
            }
            assert forall|x: Seq<char>| mutation_set(*persona, aggressive).contains(x) implies out
                .deep_view().to_set().contains(x) by {
                assert(rv.to_set().contains(x));
                let u = choose|u: int| 0 <= u < rv.len() && rv[u] == x;
                assert(rv.take(rlen as int)[u] == x);
                assert(rv.take(rlen as int).contains(x));
            }
        }
    }
    out
}

/// Determinism of the mutation engine: any two results for the same persona,
/// policy and mode are equal — worker count and merge order never show in
/// the output, which is pinned to one canonical sorted sequence.
pub proof fn lemma_generate_deterministic(
    r1: Seq<Seq<char>>,
    r2: Seq<Seq<char>>,
    p: Persona,
    aggressive: bool,
)
    requires
        strictly_sorted(r1),
        strictly_sorted(r2),
        r1.to_set() == mutation_set(p, aggressive),
        r2.to_set() == mutation_set(p, aggressive),
    ensures
        r1 == r2,
{
    lemma_sorted_unique(r1, r2);
}


proof fn lemma_combos_mono(segs: Seq<Seq<char>>, k: int, x: Seq<char>)
    requires
        0 <= k <= segs.len(),
        combos_set(segs, k, false).contains(x),
    ensures
        combos_set(segs, k, true).contains(x),
    decreases segs.len() - k,
{
    if k < segs.len() {
        let (v, r) = choose|v: Seq<char>, r: Seq<char>|
            variant_set(segs[k], false).contains(v) && combos_set(segs, k + 1, false).contains(r)
                && x == v + r;
        lemma_variant_set_mono(segs[k]);
        lemma_combos_mono(segs, k + 1, r);
    }
}

proof fn lemma_word_results_mono(j: Seq<char>, policy: PasswordPolicy, x: Seq<char>)
    requires
        word_results(j, policy, false).contains(x),
    ensures
        word_results(j, policy, true).contains(x),
{
    let (n, s) = choose|n: Seq<char>, s: Seq<char>|
        #![trigger numeric_layer_spec(j, policy, false).contains(n), symbol_layer_spec(n, policy, false).contains(s)]
        numeric_layer_spec(j, policy, false).contains(n) && symbol_layer_spec(
            n,
            policy,
            false,
        ).contains(s) && leet_layer_spec(s, false).contains(x) && spec_length_ok(x, policy);
    lemma_numeric_layer_mono(j, policy, n);
    lemma_symbol_layer_mono(n, policy, s);
    lemma_leet_layer_mono(s, x);
}

proof fn lemma_sequence_candidates_mono(
    ss: Seq<Seq<char>>,
    fv: Seq<Seq<char>>,
    policy: PasswordPolicy,
    x: Seq<char>,
)
    requires
        sequence_candidates(ss, fv, policy, false).contains(x),
    ensures
        sequence_candidates(ss, fv, policy, true).contains(x),
{
    let (e, jn) = choose|e: Seq<Seq<char>>, jn: Seq<char>|
        #![trigger expansion_spec(ss, fv).contains(e), word_results(jn, policy, false).contains(x)]
        expansion_spec(ss, fv).contains(e) && combos_set(e, 0, false).contains(jn)
            && word_results(jn, policy, false).contains(x);
    lemma_combos_mono(e, 0, jn);
    lemma_word_results_mono(jn, policy, x);
    assert(expansion_spec(ss, fv).contains(e) && combos_set(e, 0, true).contains(jn)
        && word_results(jn, policy, true).contains(x));
}

/// Aggressive mode only widens depth, digit budget, symbol insertion points
/// and reversal options: for the same persona and policy, every candidate of
/// the normal-mode result appears in the aggressive-mode result.
pub proof fn lemma_aggressive_superset(p: Persona)
    ensures
        mutation_set(p, false).subset_of(mutation_set(p, true)),
{
    let vals = values_of_sets(nonempty_category_sets(p));
    let fv = sorted_of(date_fragment_set(p));
    let base_n = segment_seqs(vals, spec_depth(false));
    let base_a = segment_seqs(vals, spec_depth(true));
    assert forall|x: Seq<char>| mutation_set(p, false).contains(x) implies mutation_set(
        p,
        true,
    ).contains(x) by {
        let i = choose|i: int|
            0 <= i < base_n.len() && sequence_candidates(
                #[trigger] base_n[i],
                fv,
                p.policy,
                false,
            ).contains(x);
        assert(base_n.contains(base_n[i]));
        lemma_segment_seqs_depth_mono(vals, spec_depth(false), spec_depth(true), base_n[i]);
        let i2 = choose|i2: int| 0 <= i2 < base_a.len() && base_a[i2] == base_n[i];
        lemma_sequence_candidates_mono(base_n[i], fv, p.policy, x);
        assert(sequence_candidates(base_a[i2], fv, p.policy, true).contains(x));
    }
}

} // verus!
