//! Canonical ordering of string collections.
//!
//! Both engines' derived collections are deduplicated and sorted
//! lexicographically for determinism. A strictly sorted sequence is uniquely
//! determined by its set of elements, so the contracts here pin results
//! exactly: sortedness plus set equality.

use vstd::prelude::*;

use crate::chars::lemma_lex_irrefl;
use crate::chars::lemma_lex_total;
use crate::chars::lemma_lex_trans;
use crate::chars::lex_lt;
use crate::chars::str_lt;

verus! {

/// Strictly increasing in lexicographic order: sorted with no duplicates.
pub open spec fn strictly_sorted(s: Seq<Seq<char>>) -> bool {
    forall|i: int, j: int| 0 <= i < j < s.len() ==> lex_lt(s[i], s[j])
}

/// Inserts a string into a strictly sorted vector, keeping it strictly
/// sorted; a string already present is not duplicated.
fn insert_sorted(out: &mut Vec<String>, s: String)
    requires
        strictly_sorted(old(out).deep_view()),
    ensures
        strictly_sorted(final(out).deep_view()),
        final(out).deep_view().to_set() == old(out).deep_view().to_set().insert(s@),
{
    let ghost dv = out.deep_view();
    let len = out.len();
    let mut k: usize = 0;
    while k < len && str_lt(out[k].as_str(), s.as_str())
        invariant
            k <= len,
            len == out.len(),
            dv == out.deep_view(),
            strictly_sorted(dv),
            forall|j: int| 0 <= j < k ==> lex_lt(dv[j], s@),
        decreases len - k,
    {
        k += 1;
    }
    if k < len && out[k].eq(&s) {
        proof {
            assert(dv[k as int] == s@);
            assert(dv.to_set().contains(s@));
            assert(dv.to_set() =~= dv.to_set().insert(s@));
        }
    } else {
        proof {
            if k < len {
                lemma_lex_total(dv[k as int], s@);
                assert(lex_lt(s@, dv[k as int]));
            }
        }
        out.insert(k, s);
        proof {
            let dv2 = out.deep_view();
            assert(dv2.len() == dv.len() + 1);
            assert(forall|i: int| 0 <= i < k ==> dv2[i] == dv[i]);
            assert(dv2[k as int] == s@);
            assert(forall|i: int| k < i < dv2.len() ==> dv2[i] == dv[i - 1]);
            assert forall|i: int, j: int| 0 <= i < j < dv2.len() implies lex_lt(
                dv2[i],
                dv2[j],
            ) by {
                if i == k && j > k {
                    if k < dv.len() && j > k + 1 {
                        lemma_lex_trans(s@, dv[k as int], dv[j - 1]);
                    }
                }
            }
            assert(dv2.to_set() =~= dv.to_set().insert(s@)) by {
                assert forall|x: Seq<char>| dv2.to_set().contains(x) implies dv.to_set().insert(
                    s@,
                ).contains(x) by {
                    let i = choose|i: int| 0 <= i < dv2.len() && dv2[i] == x;
                    if i < k {
                        assert(dv[i] == x);
                    } else if i > k {
                        assert(dv[i - 1] == x);
                    }
                }
                assert forall|x: Seq<char>| dv.to_set().insert(s@).contains(x) implies dv2.to_set(
                ).contains(x) by {
                    if x == s@ {
                        assert(dv2[k as int] == x);
                    } else {
                        let i = choose|i: int| 0 <= i < dv.len() && dv[i] == x;
                        if i < k {
                            assert(dv2[i] == x);
                        } else {
                            assert(dv2[i + 1] == x);
                        }
                    }
                }
            }
        }
    }
}

/// Sorts a vector of strings lexicographically and removes duplicates: the
/// result is strictly sorted and holds exactly the input's set of strings.
pub fn sort_dedup(v: &Vec<String>) -> (r: Vec<String>)
    ensures
        strictly_sorted(r.deep_view()),
        r.deep_view().to_set() == v.deep_view().to_set(),
{
    let mut out: Vec<String> = Vec::new();
    let mut i: usize = 0;
    let len = v.len();
    proof {
        assert(out.deep_view().to_set() =~= v.deep_view().take(0).to_set());
    }
    while i < len
        invariant
            i <= len,
            len == v.len(),
            strictly_sorted(out.deep_view()),
            out.deep_view().to_set() == v.deep_view().take(i as int).to_set(),
        decreases len - i,
    {
        let s = v[i].clone();
        insert_sorted(&mut out, s);
        proof {
            let dv = v.deep_view();
            assert(dv.take(i + 1).to_set() =~= dv.take(i as int).to_set().insert(dv[i as int])) by {
                assert forall|x: Seq<char>| dv.take(i + 1).contains(x) implies dv.take(
                    i as int,
                ).to_set().insert(dv[i as int]).contains(x) by {
                    let t = choose|t: int| 0 <= t < i + 1 && #[trigger] dv.take(i + 1)[t] == x;
                    if t < i {
                        assert(dv.take(i as int)[t] == x);
                    }
                }
                assert forall|x: Seq<char>|
                    dv.take(i as int).to_set().insert(dv[i as int]).contains(
                        x,
                    ) implies dv.take(i + 1).contains(x) by {
                    if x == dv[i as int] {
                        assert(dv.take(i + 1)[i as int] == x);
                    } else {
                        let t = choose|t: int| 0 <= t < i && dv.take(i as int)[t] == x;
                        assert(dv.take(i + 1)[t] == x);
                    }
                }
            }
        }
        i += 1;
    }
    proof {
        assert(v.deep_view().take(len as int) =~= v.deep_view());
    }
    out
}

/// Clones a vector of strings, tracked at the view level.
pub fn clone_strings(v: &Vec<String>) -> (r: Vec<String>)
    ensures
        r.deep_view() == v.deep_view(),
{
    let mut out: Vec<String> = Vec::new();
    append_clones(&mut out, v);
    proof {
        assert(out.deep_view() =~= v.deep_view());
    }
    out
}

/// Appends one string, tracked at the view level.
pub fn push_owned(dst: &mut Vec<String>, s: String)
    ensures
        final(dst).deep_view() == old(dst).deep_view().push(s@),
{
    let ghost before = dst.deep_view();
    dst.push(s);
    proof {
        let after = dst.deep_view();
        assert(after.len() == before.len() + 1);
        assert(forall|t: int| 0 <= t < before.len() ==> after[t] == before[t]);
        assert(after =~= before.push(after[after.len() - 1]));
    }
}

/// Appends clones of all of `src` to `dst`, in order.
pub fn append_clones(dst: &mut Vec<String>, src: &Vec<String>)
    ensures
        final(dst).deep_view() == old(dst).deep_view() + src.deep_view(),
{
    let ghost dv0 = dst.deep_view();
    let len = src.len();
    let mut i: usize = 0;
    while i < len
        invariant
            i <= len,
            len == src.len(),
            dst.deep_view() =~= dv0 + src.deep_view().take(i as int),
        decreases len - i,
    {
        let ghost before = dst.deep_view();
        dst.push(src[i].clone());
        proof {
            let after = dst.deep_view();
            assert(after.len() == before.len() + 1);
            assert(forall|t: int| 0 <= t < before.len() ==> after[t] == before[t]);
            assert(after[after.len() - 1] == src.deep_view()[i as int]);
            assert(after =~= dv0 + src.deep_view().take(i + 1));
        }
        i += 1;
    }
    proof {
        assert(src.deep_view().take(len as int) =~= src.deep_view());
        assert(dst.deep_view() =~= dv0 + src.deep_view());
    }
}

/// Two strictly sorted sequences with the same element set are equal: the
/// canonical form is unique, which makes every collection built through
/// `sort_dedup` independent of the order work was done in.
pub proof fn lemma_sorted_unique(a: Seq<Seq<char>>, b: Seq<Seq<char>>)
    requires
        strictly_sorted(a),
        strictly_sorted(b),
        a.to_set() == b.to_set(),
    ensures
        a == b,
    decreases a.len(),
{
    if a.len() == 0 {
        if b.len() > 0 {
            assert(a.to_set().contains(b[0]));
            assert(false);
        }
        assert(a =~= b);
    } else if b.len() == 0 {
        assert(b.to_set().contains(a[0]));
        assert(false);
    } else {
        // The heads are both the unique lexicographic minimum of the set.
        assert(b.to_set().contains(a[0]));
        let ia = choose|t: int| 0 <= t < b.len() && b[t] == a[0];
        assert(a.to_set().contains(b[0]));
        let ib = choose|t: int| 0 <= t < a.len() && a[t] == b[0];
        if ia > 0 {
            // b[0] < a[0]; but b[0] occurs in a, so a[0] <= b[0]: contradiction.
            assert(lex_lt(b[0], a[0]));
            if ib > 0 {
                lemma_lex_trans(a[0], a[ib], a[0]);
                lemma_lex_irrefl(a[0]);
            } else {
                lemma_lex_irrefl(a[0]);
            }
        }
        if ib > 0 {
            assert(lex_lt(a[0], b[0]));
            lemma_lex_irrefl(b[0]);
        }
        assert(a[0] == b[0]);
        let at = a.skip(1);
        let bt = b.skip(1);
        assert(at.to_set() =~= bt.to_set()) by {
            assert forall|x: Seq<char>| at.contains(x) implies bt.contains(x) by {
                let t = choose|t: int| 0 <= t < at.len() && at[t] == x;
                assert(a[t + 1] == x);
                assert(lex_lt(a[0], x));
                assert(b.to_set().contains(x));
                let u = choose|u: int| 0 <= u < b.len() && b[u] == x;
                if u == 0 {
                    lemma_lex_irrefl(x);
                }
                assert(bt[u - 1] == x);
            }
            assert forall|x: Seq<char>| bt.contains(x) implies at.contains(x) by {
                let t = choose|t: int| 0 <= t < bt.len() && bt[t] == x;
                assert(b[t + 1] == x);
                assert(lex_lt(b[0], x));
                assert(a.to_set().contains(x));
                let u = choose|u: int| 0 <= u < a.len() && a[u] == x;
                if u == 0 {
                    lemma_lex_irrefl(x);
                }
                assert(at[u - 1] == x);
            }
        }
        assert(strictly_sorted(at)) by {
            assert forall|i: int, j: int| 0 <= i < j < at.len() implies lex_lt(at[i], at[j]) by {
                assert(at[i] == a[i + 1]);
                assert(at[j] == a[j + 1]);
            }
        }
        assert(strictly_sorted(bt)) by {
            assert forall|i: int, j: int| 0 <= i < j < bt.len() implies lex_lt(bt[i], bt[j]) by {
                assert(bt[i] == b[i + 1]);
                assert(bt[j] == b[j + 1]);
            }
        }
        lemma_sorted_unique(at, bt);
        assert(a.len() == b.len());
        assert forall|i: int| 0 <= i < a.len() implies a[i] == b[i] by {
            if i > 0 {
                assert(a[i] == at[i - 1]);
                assert(b[i] == bt[i - 1]);
            }
        }
        assert(a =~= b);
    }
}

} // verus!
