//! Category and fragment extraction: the persona's free-text groups become
//! normalized, deduplicated, lexicographically sorted string collections, and
//! the chronology strings are sliced positionally into date fragments.

use vstd::prelude::*;

use crate::chars::split_ws_of;
use crate::chars::split_ws;
use crate::chars::trim_of;
use crate::models::Persona;
use crate::order::append_clones;
use crate::order::push_owned;
use crate::order::sort_dedup;
use crate::order::strictly_sorted;

verus! {

/// One derived category: a non-empty, trimmed, deduplicated, sorted
/// collection of persona strings.
pub struct Category {
    pub values: Vec<String>,
}

/// The set a raw string group normalizes to: every member is a trimmed,
/// non-empty form of some group entry.
pub open spec fn clean_set(vs: Seq<Seq<char>>) -> Set<Seq<char>> {
    Set::new(|x: Seq<char>| exists|i: int| 0 <= i < vs.len() && trim_of(#[trigger] vs[i]) == x && x.len() != 0)
}

/// Trims every entry, drops the ones that trim to nothing, sorts
/// lexicographically and deduplicates: the canonical form of a string group.
pub fn dedup_clean(v: &Vec<String>) -> (r: Vec<String>)
    ensures
        strictly_sorted(r.deep_view()),
        r.deep_view().to_set() == clean_set(v.deep_view()),
{
    let ghost vs = v.deep_view();
    let len = v.len();
    let mut tmp: Vec<String> = Vec::new();
    proof {
        assert(tmp.deep_view().to_set() =~= clean_set(vs.take(0)));
    }
    let mut i: usize = 0;
    while i < len
        invariant
            i <= len,
            len == v.len(),
            vs == v.deep_view(),
            tmp.deep_view().to_set() == clean_set(vs.take(i as int)),
        decreases len - i,
    {
        let ghost old_dv = tmp.deep_view();
        let t = v[i].as_str().trim();
        if !t.is_empty() {
            tmp.push(t.to_owned());
            proof {
                let dv = tmp.deep_view();
                assert(dv.len() == old_dv.len() + 1);
                assert(forall|t: int| 0 <= t < old_dv.len() ==> dv[t] == old_dv[t]);
                assert(dv[dv.len() - 1] == trim_of(vs[i as int]));
                assert(dv.to_set() =~= clean_set(vs.take(i + 1))) by {
                    assert forall|x: Seq<char>| dv.to_set().contains(x) implies clean_set(
                        vs.take(i + 1),
                    ).contains(x) by {
                        let t = choose|t: int| 0 <= t < dv.len() && dv[t] == x;
                        if t < dv.len() - 1 {
                            assert(old_dv[t] == x);
                            assert(old_dv.to_set().contains(x));
                            let u = choose|u: int|
                                0 <= u < i && trim_of(#[trigger] vs.take(i as int)[u]) == x
                                    && x.len() != 0;
                            assert(trim_of(vs.take(i + 1)[u]) == x);
                        } else {
                            assert(trim_of(vs.take(i + 1)[i as int]) == x);
                        }
                    }
                    assert forall|x: Seq<char>| clean_set(vs.take(i + 1)).contains(
                        x,
                    ) implies dv.to_set().contains(x) by {
                        let u = choose|u: int|
                            0 <= u < i + 1 && trim_of(#[trigger] vs.take(i + 1)[u]) == x && x.len()
                                != 0;
                        if u < i {
                            assert(trim_of(vs.take(i as int)[u]) == x);
                            assert(old_dv.to_set().contains(x));
                            let t = choose|t: int| 0 <= t < old_dv.len() && old_dv[t] == x;
                            assert(dv[t] == x);
                        } else {
                            assert(dv[dv.len() as int - 1] == x);
                        }
                    }
                }
            }
        } else {
            proof {
                assert(clean_set(vs.take(i + 1)) =~= clean_set(vs.take(i as int))) by {
                    assert forall|x: Seq<char>| clean_set(vs.take(i + 1)).contains(
                        x,
                    ) implies clean_set(vs.take(i as int)).contains(x) by {
                        let u = choose|u: int|
                            0 <= u < i + 1 && trim_of(#[trigger] vs.take(i + 1)[u]) == x && x.len()
                                != 0;
                        assert(u < i) by {
                            if u == i {
                                assert(trim_of(vs[i as int]).len() == 0);
                            }
                        }
                        assert(trim_of(vs.take(i as int)[u]) == x);
                    }
                    assert forall|x: Seq<char>| clean_set(vs.take(i as int)).contains(
                        x,
                    ) implies clean_set(vs.take(i + 1)).contains(x) by {
                        let u = choose|u: int|
                            0 <= u < i && trim_of(#[trigger] vs.take(i as int)[u]) == x && x.len()
                                != 0;
                        assert(trim_of(vs.take(i + 1)[u]) == x);
                    }
                }
            }
        }
        i += 1;
    }
    proof {
        assert(vs.take(len as int) =~= vs);
    }
    sort_dedup(&tmp)
}

/// The raw identity material: whitespace tokens of the full name, the other
/// identity fields, and the policy's mandatory-include strings as seeds.
pub open spec fn identity_source(p: Persona) -> Seq<Seq<char>> {
    split_ws_of(p.identity.full_name@) + p.identity.nicknames.deep_view()
        + p.identity.spouse.deep_view() + p.identity.children.deep_view()
        + p.identity.pets.deep_view() + p.identity.maiden_names.deep_view()
        + p.policy.mandatory_include.deep_view()
}

pub open spec fn geography_source(p: Persona) -> Seq<Seq<char>> {
    p.geography.birth_city.deep_view() + p.geography.current_city.deep_view()
        + p.geography.streets.deep_view() + p.geography.vacation_spots.deep_view()
}

pub open spec fn professional_source(p: Persona) -> Seq<Seq<char>> {
    p.professional.current_company.deep_view() + p.professional.previous_employers.deep_view()
        + p.professional.departments.deep_view() + p.professional.projects.deep_view()
}

pub open spec fn personal_source(p: Persona) -> Seq<Seq<char>> {
    p.personal.sports_teams.deep_view() + p.personal.bands.deep_view()
        + p.personal.hobbies.deep_view() + p.personal.cars.deep_view()
}

/// Appends a group's normalized set when it is non-empty; an empty group
/// contributes no category.
pub open spec fn push_if_nonempty(
    cats: Seq<Set<Seq<char>>>,
    s: Set<Seq<char>>,
) -> Seq<Set<Seq<char>>> {
    if s == Set::<Seq<char>>::empty() {
        cats
    } else {
        cats.push(s)
    }
}

/// The normalized sets of the four category groups (identity, geography,
/// professional, personal — culture is excluded), empty groups dropped,
/// in that fixed order.
pub open spec fn nonempty_category_sets(p: Persona) -> Seq<Set<Seq<char>>> {
    push_if_nonempty(
        push_if_nonempty(
            push_if_nonempty(
                push_if_nonempty(Seq::empty(), clean_set(identity_source(p))),
                clean_set(geography_source(p)),
            ),
            clean_set(professional_source(p)),
        ),
        clean_set(personal_source(p)),
    )
}

/// Each built category is sorted and holds exactly the corresponding
/// normalized set.
pub open spec fn cats_match(r: Seq<Category>, sets: Seq<Set<Seq<char>>>) -> bool {
    &&& r.len() == sets.len()
    &&& forall|i: int|
        0 <= i < r.len() ==> strictly_sorted(#[trigger] r[i].values.deep_view())
            && r[i].values.deep_view().to_set() == sets[i]
}

/// Builds the category list from the persona: one canonical collection per
/// non-empty group, identity seeded additionally with the policy's
/// mandatory-include strings.
pub fn collect_categories(persona: &Persona) -> (r: Vec<Category>)
    ensures
        cats_match(r@, nonempty_category_sets(*persona)),
{
    let mut cats: Vec<Category> = Vec::new();

    let mut identity: Vec<String> = split_ws(persona.identity.full_name.as_str());
    append_clones(&mut identity, &persona.identity.nicknames);
    append_clones(&mut identity, &persona.identity.spouse);
    append_clones(&mut identity, &persona.identity.children);
    append_clones(&mut identity, &persona.identity.pets);
    append_clones(&mut identity, &persona.identity.maiden_names);
    append_clones(&mut identity, &persona.policy.mandatory_include);
    proof {
        assert(identity.deep_view() =~= identity_source(*persona));
    }
    let identity = dedup_clean(&identity);
    if identity.len() > 0 {
        proof {
            let dv = identity.deep_view();
            assert(dv.to_set().contains(dv[0]));
            assert(dv.to_set() != Set::<Seq<char>>::empty());
        }
        cats.push(Category { values: identity });
    } else {
        proof {
            assert(identity.deep_view().to_set() =~= Set::<Seq<char>>::empty());
        }
    }

    let mut geography: Vec<String> = Vec::new();
    append_clones(&mut geography, &persona.geography.birth_city);
    append_clones(&mut geography, &persona.geography.current_city);
    append_clones(&mut geography, &persona.geography.streets);
    append_clones(&mut geography, &persona.geography.vacation_spots);
    proof {
        assert(geography.deep_view() =~= geography_source(*persona));
    }
    let geography = dedup_clean(&geography);
    if geography.len() > 0 {
        proof {
            let dv = geography.deep_view();
            assert(dv.to_set().contains(dv[0]));
            assert(dv.to_set() != Set::<Seq<char>>::empty());
        }
        cats.push(Category { values: geography });
    } else {
        proof {
            assert(geography.deep_view().to_set() =~= Set::<Seq<char>>::empty());
        }
    }

    let mut professional: Vec<String> = Vec::new();
    append_clones(&mut professional, &persona.professional.current_company);
    append_clones(&mut professional, &persona.professional.previous_employers);
    append_clones(&mut professional, &persona.professional.departments);
    append_clones(&mut professional, &persona.professional.projects);
    proof {
        assert(professional.deep_view() =~= professional_source(*persona));
    }
    let professional = dedup_clean(&professional);
    if professional.len() > 0 {
        proof {
            let dv = professional.deep_view();
            assert(dv.to_set().contains(dv[0]));
            assert(dv.to_set() != Set::<Seq<char>>::empty());
        }
        cats.push(Category { values: professional });
    } else {
        proof {
            assert(professional.deep_view().to_set() =~= Set::<Seq<char>>::empty());
        }
    }

    let mut personal: Vec<String> = Vec::new();
    append_clones(&mut personal, &persona.personal.sports_teams);
    append_clones(&mut personal, &persona.personal.bands);
    append_clones(&mut personal, &persona.personal.hobbies);
    append_clones(&mut personal, &persona.personal.cars);
    proof {
        assert(personal.deep_view() =~= personal_source(*persona));
    }
    let personal = dedup_clean(&personal);
    if personal.len() > 0 {
        proof {
            let dv = personal.deep_view();
            assert(dv.to_set().contains(dv[0]));
            assert(dv.to_set() != Set::<Seq<char>>::empty());
        }
        cats.push(Category { values: personal });
    } else {
        proof {
            assert(personal.deep_view().to_set() =~= Set::<Seq<char>>::empty());
        }
    }

    cats
}

/// The fragments one date string yields: positional slices only, with no
/// calendar validation — day (first two), month (next two), day+month (first
/// four) for strings of at least eight characters, the last four (year), and
/// the last two (short year).
pub open spec fn frags_of(d: Seq<char>) -> Set<Seq<char>> {
    let a: Set<Seq<char>> = if d.len() >= 8 {
        set![d.subrange(0, 2), d.subrange(2, 4), d.subrange(0, 4)]
    } else {
        Set::empty()
    };
    let b: Set<Seq<char>> = if d.len() >= 4 {
        a.insert(d.subrange(d.len() - 4, d.len() as int))
    } else {
        a
    };
    if d.len() >= 2 {
        b.insert(d.subrange(d.len() - 2, d.len() as int))
    } else {
        b
    }
}

/// All four chronology fields pooled, in order.
pub open spec fn all_dates(p: Persona) -> Seq<Seq<char>> {
    p.chronology.birthdates.deep_view() + p.chronology.anniversaries.deep_view()
        + p.chronology.graduation_years.deep_view() + p.chronology.employment_start.deep_view()
}

/// The fragments of the first `n` pooled dates.
pub open spec fn frags_upto(ds: Seq<Seq<char>>, n: int) -> Set<Seq<char>> {
    Set::new(|x: Seq<char>| exists|t: int| 0 <= t < n && frags_of(#[trigger] ds[t]).contains(x))
}

/// The full date-fragment set of a persona.
pub open spec fn date_fragment_set(p: Persona) -> Set<Seq<char>> {
    frags_upto(all_dates(p), all_dates(p).len() as int)
}

/// Slices every pooled chronology string into its positional fragments,
/// deduplicated and sorted.
pub fn derive_date_fragments(persona: &Persona) -> (r: Vec<String>)
    ensures
        strictly_sorted(r.deep_view()),
        r.deep_view().to_set() == date_fragment_set(*persona),
{
    let mut dates: Vec<String> = Vec::new();
    append_clones(&mut dates, &persona.chronology.birthdates);
    append_clones(&mut dates, &persona.chronology.anniversaries);
    append_clones(&mut dates, &persona.chronology.graduation_years);
    append_clones(&mut dates, &persona.chronology.employment_start);
    proof {
        assert(dates.deep_view() =~= all_dates(*persona));
    }
    let ghost ds = dates.deep_view();
    let len = dates.len();
    let mut frags: Vec<String> = Vec::new();
    proof {
        assert(frags.deep_view().to_set() =~= frags_upto(ds, 0));
    }
    let mut i: usize = 0;
    while i < len
        invariant
            i <= len,
            len == dates.len(),
            ds == dates.deep_view(),
            frags.deep_view().to_set() == frags_upto(ds, i as int),
        decreases len - i,
    {
        let ghost old_dv = frags.deep_view();
        let d = dates[i].as_str();
        let dlen = d.unicode_len();
        if dlen >= 8 {
            push_owned(&mut frags, d.substring_char(0, 2).to_owned());
            push_owned(&mut frags, d.substring_char(2, 4).to_owned());
            push_owned(&mut frags, d.substring_char(0, 4).to_owned());
        }
        if dlen >= 4 {
            push_owned(&mut frags, d.substring_char(dlen - 4, dlen).to_owned());
        }
        if dlen >= 2 {
            push_owned(&mut frags, d.substring_char(dlen - 2, dlen).to_owned());
        }
        proof {
            let dv = frags.deep_view();
            assert(dv.to_set() =~= frags_upto(ds, i + 1)) by {
                assert forall|x: Seq<char>| dv.to_set().contains(x) implies frags_upto(
                    ds,
                    i + 1,
                ).contains(x) by {
                    let t = choose|t: int| 0 <= t < dv.len() && dv[t] == x;
                    if t < old_dv.len() {
                        assert(old_dv[t] == x);
                        assert(old_dv.to_set().contains(x));
                        let u = choose|u: int|
                            0 <= u < i && frags_of(#[trigger] ds[u]).contains(x);
                    } else {
                        assert(frags_of(ds[i as int]).contains(x));
                    }
                }
                assert forall|x: Seq<char>| frags_upto(ds, i + 1).contains(x) implies dv.to_set()
                    .contains(x) by {
                    let u = choose|u: int| 0 <= u < i + 1 && frags_of(#[trigger] ds[u]).contains(x);
                    if u < i {
                        assert(old_dv.to_set().contains(x));
                        let t = choose|t: int| 0 <= t < old_dv.len() && old_dv[t] == x;
                        assert(dv[t] == x);
                    } else {
                        let e = ds[i as int];
                        if e.len() >= 8 && x == e.subrange(0, 2) {
                            assert(dv[old_dv.len() as int] == x);
                        } else if e.len() >= 8 && x == e.subrange(2, 4) {
                            assert(dv[old_dv.len() as int + 1] == x);
                        } else if e.len() >= 8 && x == e.subrange(0, 4) {
                            assert(dv[old_dv.len() as int + 2] == x);
                        } else if e.len() >= 4 && x == e.subrange(
                            e.len() - 4,
                            e.len() as int,
                        ) {
                            assert(dv[dv.len() as int - (if e.len() >= 2 { 2int } else { 1 })] == x);
                        } else {
                            assert(e.len() >= 2 && x == e.subrange(e.len() - 2, e.len() as int));
                            assert(dv[dv.len() as int - 1] == x);
                        }
                    }
                }
            }
        }
        i += 1;
    }
    proof {
        assert(frags_upto(ds, len as int) == date_fragment_set(*persona));
    }
    sort_dedup(&frags)
}

} // verus!
