//! The combinatorial segment generator: every ordered sequence of category
//! values of length 1 up to the depth bound, in depth-first order. Every
//! prefix is emitted, not only full-depth sequences; any value may be chosen
//! at any position. Output size is the geometric sum of the value count over
//! all depths, the system's largest combinatorial cost.

use vstd::prelude::*;

use crate::categories::Category;
use crate::order::clone_strings;

verus! {

/// The depth bound: three positions in normal mode, four in aggressive mode.
pub open spec fn spec_depth(aggressive: bool) -> nat {
    if aggressive {
        4
    } else {
        3
    }
}

/// All category values, flattened in category order.
pub open spec fn all_values(cats: Seq<Category>) -> Seq<Seq<char>>
    decreases cats.len(),
{
    if cats.len() == 0 {
        Seq::empty()
    } else {
        all_values(cats.drop_last()) + cats.last().values.deep_view()
    }
}

/// The emissions of one expansion step: the current prefix itself, then, if
/// the budget allows another position, the emissions of the prefix extended
/// by each value in order.
pub open spec fn gen_from(values: Seq<Seq<char>>, cur: Seq<Seq<char>>, budget: nat) -> Seq<
    Seq<Seq<char>>,
>
    decreases budget, values.len() + 1,
{
    seq![cur] + gen_children(values, cur, budget, 0)
}

/// The emissions of the prefix extended by each of the values from index `k`
/// on, in order; none when the budget is spent.
pub open spec fn gen_children(
    values: Seq<Seq<char>>,
    cur: Seq<Seq<char>>,
    budget: nat,
    k: int,
) -> Seq<Seq<Seq<char>>>
    decreases budget, values.len() - k,
{
    if budget == 0 || k < 0 || k >= values.len() {
        Seq::empty()
    } else {
        gen_from(values, cur.push(values[k]), (budget - 1) as nat) + gen_children(
            values,
            cur,
            budget,
            k + 1,
        )
    }
}

/// The full output of the segment generator: every sequence of 1 to
/// `max_depth` values, each position drawn freely from `values`.
pub open spec fn segment_seqs(values: Seq<Seq<char>>, max_depth: nat) -> Seq<Seq<Seq<char>>> {
    gen_children(values, Seq::empty(), max_depth, 0)
}

/// The geometric sum `v + v^2 + ... + v^d`: how many sequences the generator
/// emits for `v` values and depth bound `d`.
pub open spec fn seg_count(v: nat, d: nat) -> nat
    decreases d,
{
    if d == 0 {
        0
    } else {
        v * (1 + seg_count(v, (d - 1) as nat))
    }
}

/// `gen_from` emits `1 + seg_count(v, budget)` sequences.
pub proof fn lemma_gen_from_len(values: Seq<Seq<char>>, cur: Seq<Seq<char>>, budget: nat)
    ensures
        gen_from(values, cur, budget).len() == 1 + seg_count(values.len(), budget),
    decreases budget, values.len() + 1,
{
    lemma_gen_children_len(values, cur, budget, 0);
}

/// `gen_children` from index `k` emits `(v - k)` blocks of
/// `1 + seg_count(v, budget - 1)` sequences each.
pub proof fn lemma_gen_children_len(
    values: Seq<Seq<char>>,
    cur: Seq<Seq<char>>,
    budget: nat,
    k: int,
)
    requires
        0 <= k <= values.len(),
    ensures
        budget > 0 ==> gen_children(values, cur, budget, k).len() == (values.len() - k) * (1
            + seg_count(values.len(), (budget - 1) as nat)),
        budget == 0 ==> gen_children(values, cur, budget, k).len() == 0,
        k == 0 ==> gen_children(values, cur, budget, k).len() == seg_count(values.len(), budget),
    decreases budget, values.len() - k,
{
    if budget == 0 || k >= values.len() {
        if budget > 0 {
            assert(k == values.len());
            let block = 1 + seg_count(values.len(), (budget - 1) as nat);
            assert((values.len() - k) * block == 0) by (nonlinear_arith)
                requires
                    k == values.len(),
            ;
        }
        if k == 0 && budget > 0 {
            assert(values.len() == 0);
        }
    } else {
        lemma_gen_from_len(values, cur.push(values[k]), (budget - 1) as nat);
        lemma_gen_children_len(values, cur, budget, k + 1);
        let block = 1 + seg_count(values.len(), (budget - 1) as nat);
        assert((values.len() - k) * block == block + (values.len() - k - 1) * block) by (
        nonlinear_arith);
        if k == 0 {
            assert(values.len() * block == (values.len() - 0) * block);
        }
    }
}

fn gen_rec(values: &Vec<String>, cur: &Vec<String>, budget: usize, out: &mut Vec<Vec<String>>)
    ensures
        final(out).deep_view() == old(out).deep_view() + gen_from(
            values.deep_view(),
            cur.deep_view(),
            budget as nat,
        ),
    decreases budget,
{
    let ghost base = out.deep_view();
    let ghost vs = values.deep_view();
    let ghost cv = cur.deep_view();
    let emitted = clone_strings(cur);
    let ghost before = out.deep_view();
    out.push(emitted);
    proof {
        let after = out.deep_view();
        assert(after.len() == before.len() + 1);
        assert(forall|t: int| 0 <= t < before.len() ==> after[t] == before[t]);
        assert(after =~= base + seq![cv]);
    }
    if budget == 0 {
        proof {
            assert(base + gen_from(vs, cv, 0) =~= base + seq![cv]);
        }
        return ;
    }
    let len = values.len();
    let mut k: usize = 0;
    while k < len
        invariant
            k <= len,
            len == values.len(),
            vs == values.deep_view(),
            cv == cur.deep_view(),
            budget >= 1,
            out.deep_view() + gen_children(vs, cv, budget as nat, k as int) =~= base + gen_from(
                vs,
                cv,
                budget as nat,
            ),
        decreases len - k,
    {
        let mut next = clone_strings(cur);
        let ghost nbefore = next.deep_view();
        next.push(values[k].clone());
        proof {
            let nafter = next.deep_view();
            assert(nafter.len() == nbefore.len() + 1);
            assert(forall|t: int| 0 <= t < nbefore.len() ==> nafter[t] == nbefore[t]);
            assert(nafter =~= cv.push(vs[k as int]));
        }
        let ghost mid = out.deep_view();
        gen_rec(values, &next, budget - 1, out);
        proof {
            assert(gen_children(vs, cv, budget as nat, k as int) =~= gen_from(
                vs,
                cv.push(vs[k as int]),
                (budget - 1) as nat,
            ) + gen_children(vs, cv, budget as nat, k + 1));
            assert(out.deep_view() + gen_children(vs, cv, budget as nat, k + 1) =~= mid
                + gen_children(vs, cv, budget as nat, k as int));
        }
        k += 1;
    }
    proof {
        assert(gen_children(vs, cv, budget as nat, len as int) =~= Seq::empty());
        assert(out.deep_view() =~= out.deep_view() + gen_children(vs, cv, budget as nat, len as int));
    }
}

/// Enumerates every ordered segment sequence of length 1 to the mode's depth
/// bound over all category values, in depth-first order; the result length is
/// the geometric sum of the value count.
pub fn cross_categories_segments(categories: &Vec<Category>, aggressive: bool) -> (r: Vec<
    Vec<String>,
>)
    ensures
        r.deep_view() == segment_seqs(all_values(categories@), spec_depth(aggressive)),
        r.deep_view().len() == seg_count(
            all_values(categories@).len(),
            spec_depth(aggressive),
        ),
{
    let mut values: Vec<String> = Vec::new();
    let clen = categories.len();
    let mut i: usize = 0;
    proof {
        assert(values.deep_view() =~= all_values(categories@.take(0)));
    }
    while i < clen
        invariant
            i <= clen,
            clen == categories.len(),
            values.deep_view() == all_values(categories@.take(i as int)),
        decreases clen - i,
    {
        crate::order::append_clones(&mut values, &categories[i].values);
        proof {
            assert(categories@.take(i + 1).drop_last() =~= categories@.take(i as int));
            assert(categories@.take(i + 1).last() == categories@[i as int]);
            assert(all_values(categories@.take(i + 1)) == all_values(categories@.take(i as int))
                + categories@[i as int].values.deep_view());
        }
        i += 1;
    }
    proof {
        assert(categories@.take(clen as int) =~= categories@);
    }
    let ghost vs = values.deep_view();
    let depth: usize = if aggressive {
        4
    } else {
        3
    };
    let mut out: Vec<Vec<String>> = Vec::new();
    let vlen = values.len();
    let mut k: usize = 0;
    while k < vlen
        invariant
            k <= vlen,
            vlen == values.len(),
            vs == values.deep_view(),
            depth == spec_depth(aggressive),
            out.deep_view() + gen_children(vs, Seq::empty(), depth as nat, k as int)
                =~= segment_seqs(vs, depth as nat),
        decreases vlen - k,
    {
        let mut cur: Vec<String> = Vec::new();
        cur.push(values[k].clone());
        proof {
            assert(cur.deep_view() =~= Seq::<Seq<char>>::empty().push(vs[k as int]));
        }
        let ghost mid = out.deep_view();
        gen_rec(&values, &cur, depth - 1, &mut out);
        proof {
            assert(gen_children(vs, Seq::empty(), depth as nat, k as int) =~= gen_from(
                vs,
                Seq::<Seq<char>>::empty().push(vs[k as int]),
                (depth - 1) as nat,
            ) + gen_children(vs, Seq::empty(), depth as nat, k + 1));
            assert(out.deep_view() + gen_children(vs, Seq::empty(), depth as nat, k + 1) =~= mid
                + gen_children(vs, Seq::empty(), depth as nat, k as int));
        }
        k += 1;
    }
    proof {
        assert(gen_children(vs, Seq::empty(), depth as nat, vlen as int) =~= Seq::empty());
        assert(out.deep_view() =~= out.deep_view() + gen_children(
            vs,
            Seq::empty(),
            depth as nat,
            vlen as int,
        ));
        lemma_gen_children_len(vs, Seq::empty(), depth as nat, 0);
    }
    out
}


/// Everything emitted under a smaller budget is emitted under a larger one:
/// the prefix sequences are all re-emitted at every greater depth.
pub proof fn lemma_gen_from_mono(
    values: Seq<Seq<char>>,
    cur: Seq<Seq<char>>,
    b1: nat,
    b2: nat,
    x: Seq<Seq<char>>,
)
    requires
        b1 <= b2,
        gen_from(values, cur, b1).contains(x),
    ensures
        gen_from(values, cur, b2).contains(x),
    decreases b2, values.len() + 1,
{
    let g1 = gen_from(values, cur, b1);
    let u = choose|u: int| 0 <= u < g1.len() && g1[u] == x;
    if u == 0 {
        assert(gen_from(values, cur, b2)[0] == x);
    } else {
        assert(gen_children(values, cur, b1, 0)[u - 1] == x);
        assert(gen_children(values, cur, b1, 0).contains(x));
        lemma_gen_children_mono(values, cur, b1, b2, 0, x);
        let g2 = gen_children(values, cur, b2, 0);
        let w = choose|w: int| 0 <= w < g2.len() && g2[w] == x;
        assert(gen_from(values, cur, b2)[w + 1] == x);
    }
}

/// The same monotonicity for the per-value expansion blocks.
pub proof fn lemma_gen_children_mono(
    values: Seq<Seq<char>>,
    cur: Seq<Seq<char>>,
    b1: nat,
    b2: nat,
    k: int,
    x: Seq<Seq<char>>,
)
    requires
        b1 <= b2,
        0 <= k <= values.len(),
        gen_children(values, cur, b1, k).contains(x),
    ensures
        gen_children(values, cur, b2, k).contains(x),
    decreases b2, values.len() - k,
{
    if b1 == 0 || k >= values.len() {
        assert(gen_children(values, cur, b1, k).len() == 0);
    } else {
        let a = gen_from(values, cur.push(values[k]), (b1 - 1) as nat);
        let c = gen_children(values, cur, b1, k + 1);
        assert(gen_children(values, cur, b1, k) == a + c);
        let a2 = gen_from(values, cur.push(values[k]), (b2 - 1) as nat);
        let c2 = gen_children(values, cur, b2, k + 1);
        assert(gen_children(values, cur, b2, k) == a2 + c2);
        let u = choose|u: int| 0 <= u < (a + c).len() && (a + c)[u] == x;
        if u < a.len() {
            assert(a[u] == x);
            assert(a.contains(x));
            lemma_gen_from_mono(values, cur.push(values[k]), (b1 - 1) as nat, (b2 - 1) as nat, x);
            let w = choose|w: int| 0 <= w < a2.len() && a2[w] == x;
            assert((a2 + c2)[w] == x);
        } else {
            assert(c[u - a.len()] == x);
            assert(c.contains(x));
            lemma_gen_children_mono(values, cur, b1, b2, k + 1, x);
            let w = choose|w: int| 0 <= w < c2.len() && c2[w] == x;
            assert((a2 + c2)[a2.len() + w] == x);
        }
    }
}

/// A deeper bound re-emits every sequence of a shallower one.
pub proof fn lemma_segment_seqs_depth_mono(
    values: Seq<Seq<char>>,
    d1: nat,
    d2: nat,
    x: Seq<Seq<char>>,
)
    requires
        d1 <= d2,
        segment_seqs(values, d1).contains(x),
    ensures
        segment_seqs(values, d2).contains(x),
{
    lemma_gen_children_mono(values, Seq::empty(), d1, d2, 0, x);
}


proof fn lemma_gen_from_shape(
    values: Seq<Seq<char>>,
    cur: Seq<Seq<char>>,
    b: nat,
    x: Seq<Seq<char>>,
)
    requires
        gen_from(values, cur, b).contains(x),
    ensures
        cur.len() <= x.len() <= cur.len() + b,
        x.take(cur.len() as int) == cur,
        forall|i: int| cur.len() <= i < x.len() ==> values.contains(#[trigger] x[i]),
    decreases b, values.len() + 1,
{
    let g = gen_from(values, cur, b);
    let u = choose|u: int| 0 <= u < g.len() && g[u] == x;
    if u == 0 {
        assert(x == cur);
        assert(x.take(cur.len() as int) =~= cur);
    } else {
        assert(gen_children(values, cur, b, 0)[u - 1] == x);
        assert(gen_children(values, cur, b, 0).contains(x));
        lemma_gen_children_shape(values, cur, b, 0, x);
    }
}

proof fn lemma_gen_children_shape(
    values: Seq<Seq<char>>,
    cur: Seq<Seq<char>>,
    b: nat,
    k: int,
    x: Seq<Seq<char>>,
)
    requires
        0 <= k,
        gen_children(values, cur, b, k).contains(x),
    ensures
        cur.len() < x.len() <= cur.len() + b,
        x.take(cur.len() as int) == cur,
        forall|i: int| cur.len() <= i < x.len() ==> values.contains(#[trigger] x[i]),
    decreases b, values.len() - k,
{
    if b == 0 || k >= values.len() {
        assert(gen_children(values, cur, b, k).len() == 0);
    } else {
        let a = gen_from(values, cur.push(values[k]), (b - 1) as nat);
        let c = gen_children(values, cur, b, k + 1);
        assert(gen_children(values, cur, b, k) == a + c);
        let u = choose|u: int| 0 <= u < (a + c).len() && (a + c)[u] == x;
        if u < a.len() {
            assert(a[u] == x);
            assert(a.contains(x));
            lemma_gen_from_shape(values, cur.push(values[k]), (b - 1) as nat, x);
            let ext = cur.push(values[k]);
            assert(x.take(ext.len() as int) == ext);
            assert(x.take(cur.len() as int) =~= cur) by {
                assert(forall|i: int|
                    0 <= i < cur.len() ==> x.take(ext.len() as int)[i] == #[trigger] x[i]);
            }
            assert(values.contains(x[cur.len() as int])) by {
                assert(x.take(ext.len() as int)[cur.len() as int] == x[cur.len() as int]);
                assert(x[cur.len() as int] == values[k]);
            }
        } else {
            assert(c[u - a.len()] == x);
            assert(c.contains(x));
            lemma_gen_children_shape(values, cur, b, k + 1, x);
        }
    }
}

proof fn lemma_gen_children_block(
    values: Seq<Seq<char>>,
    cur: Seq<Seq<char>>,
    b: nat,
    k0: int,
    k: int,
    x: Seq<Seq<char>>,
)
    requires
        0 <= k0 <= k < values.len(),
        b > 0,
        gen_from(values, cur.push(values[k]), (b - 1) as nat).contains(x),
    ensures
        gen_children(values, cur, b, k0).contains(x),
    decreases k - k0,
{
    let a = gen_from(values, cur.push(values[k0]), (b - 1) as nat);
    let c = gen_children(values, cur, b, k0 + 1);
    assert(gen_children(values, cur, b, k0) == a + c);
    if k0 == k {
        let u = choose|u: int| 0 <= u < a.len() && a[u] == x;
        assert((a + c)[u] == x);
    } else {
        lemma_gen_children_block(values, cur, b, k0 + 1, k, x);
        let u = choose|u: int| 0 <= u < c.len() && c[u] == x;
        assert((a + c)[a.len() + u] == x);
    }
}

proof fn lemma_gen_from_complete(
    values: Seq<Seq<char>>,
    cur: Seq<Seq<char>>,
    b: nat,
    x: Seq<Seq<char>>,
)
    requires
        cur.len() <= x.len() <= cur.len() + b,
        x.take(cur.len() as int) == cur,
        forall|i: int| cur.len() <= i < x.len() ==> values.contains(#[trigger] x[i]),
    ensures
        gen_from(values, cur, b).contains(x),
    decreases b,
{
    if x.len() == cur.len() {
        assert(x =~= cur);
        assert(gen_from(values, cur, b)[0] == x);
    } else {
        let v = x[cur.len() as int];
        assert(values.contains(v));
        let k = choose|k: int| 0 <= k < values.len() && values[k] == v;
        let ext = cur.push(values[k]);
        assert(x.take(ext.len() as int) =~= ext) by {
            assert(forall|i: int|
                0 <= i < cur.len() ==> x.take(cur.len() as int)[i] == #[trigger] x[i]);
        }
        lemma_gen_from_complete(values, ext, (b - 1) as nat, x);
        lemma_gen_children_block(values, cur, b, 0, k, x);
        let g = gen_children(values, cur, b, 0);
        let u = choose|u: int| 0 <= u < g.len() && g[u] == x;
        assert(gen_from(values, cur, b)[u + 1] == x);
    }
}

/// The generator's output characterized directly: a sequence is emitted
/// exactly when its length is between 1 and the depth bound and every one of
/// its positions holds some category value — all prefixes included, any
/// value at any position.
pub proof fn lemma_segment_seqs_membership(values: Seq<Seq<char>>, d: nat, x: Seq<Seq<char>>)
    ensures
        segment_seqs(values, d).contains(x) <==> (1 <= x.len() <= d && forall|i: int|
            0 <= i < x.len() ==> values.contains(#[trigger] x[i])),
{
    if segment_seqs(values, d).contains(x) {
        lemma_gen_children_shape(values, Seq::empty(), d, 0, x);
    }
    if 1 <= x.len() <= d && forall|i: int|
        0 <= i < x.len() ==> values.contains(#[trigger] x[i]) {
        let v = x[0];
        let k = choose|k: int| 0 <= k < values.len() && values[k] == v;
        let ext = Seq::<Seq<char>>::empty().push(values[k]);
        assert(x.take(ext.len() as int) =~= ext);
        lemma_gen_from_complete(values, ext, (d - 1) as nat, x);
        lemma_gen_children_block(values, Seq::empty(), d, 0, k, x);
    }
}

} // verus!
