//! The order in which branch and bound goes through the candidates.
use vstd::prelude::*;
use core::cmp::Ordering;
use crate::coin_selector::{Candidate, CoinSelector, SelectorView};

verus! {

/// Whether `a` has the higher value per weight unit. A candidate without weight has a higher
/// value per weight unit than every candidate with weight.
pub open spec fn spec_value_pwu_above(a: Candidate, b: Candidate) -> bool {
    b.weight > 0 && (a.weight == 0 || a.value * b.weight > b.value * a.weight)
}

/// Whether `a` stands before `b` by descending value per weight unit, ties broken by
/// descending value.
pub open spec fn spec_precedes(a: Candidate, b: Candidate) -> bool {
    spec_value_pwu_above(a, b) || (!spec_value_pwu_above(b, a) && a.value > b.value)
}

/// Whether `order` lists the candidates by descending value per weight unit, ties broken by
/// descending value: no candidate stands after one that it precedes.
pub open spec fn spec_sorted(candidates: Seq<Candidate>, order: Seq<usize>) -> bool {
    forall|p: int, q: int|
        0 <= p < q < order.len() ==> !spec_precedes(
            candidates[#[trigger] order[q] as int],
            candidates[#[trigger] order[p] as int],
        )
}

/// Whether `order` keeps candidates that tie in the order in which `before` has them.
pub open spec fn spec_stable(candidates: Seq<Candidate>, before: Seq<usize>, order: Seq<usize>) -> bool {
    forall|p: int, q: int, i: int, j: int|
        0 <= p < q < order.len() && 0 <= i < before.len() && 0 <= j < before.len()
            && #[trigger] before[i] == #[trigger] order[p] && #[trigger] before[j]
            == #[trigger] order[q] && !spec_precedes(
            candidates[order[p] as int],
            candidates[order[q] as int],
        ) ==> i < j
}

/// Comparing fractions by cross-multiplication is transitive.
proof fn lemma_cross_transitive(av: int, aw: int, bv: int, bw: int, cv: int, cw: int)
    requires
        0 <= av,
        0 <= bv,
        0 <= cv,
        0 < aw,
        0 < bw,
        0 < cw,
        av * bw >= bv * aw,
        bv * cw >= cv * bw,
    ensures
        av * cw >= cv * aw,
        av * bw > bv * aw ==> av * cw > cv * aw,
        bv * cw > cv * bw ==> av * cw > cv * aw,
{
    assert((av * bw) * cw >= (bv * aw) * cw) by (nonlinear_arith)
        requires
            av * bw >= bv * aw,
            0 < cw,
    ;
    assert((bv * cw) * aw >= (cv * bw) * aw) by (nonlinear_arith)
        requires
            bv * cw >= cv * bw,
            0 < aw,
    ;
    assert((av * bw) * cw == (av * cw) * bw) by (nonlinear_arith);
    assert((bv * aw) * cw == (bv * cw) * aw) by (nonlinear_arith);
    assert((cv * bw) * aw == (cv * aw) * bw) by (nonlinear_arith);
    assert(av * cw >= cv * aw) by (nonlinear_arith)
        requires
            (av * cw) * bw >= (cv * aw) * bw,
            0 < bw,
    ;
    if av * bw > bv * aw {
        assert((av * bw) * cw > (bv * aw) * cw) by (nonlinear_arith)
            requires
                av * bw > bv * aw,
                0 < cw,
        ;
        assert(av * cw > cv * aw) by (nonlinear_arith)
            requires
                (av * cw) * bw > (cv * aw) * bw,
                0 < bw,
        ;
    }
    if bv * cw > cv * bw {
        assert((bv * cw) * aw > (cv * bw) * aw) by (nonlinear_arith)
            requires
                bv * cw > cv * bw,
                0 < aw,
        ;
        assert(av * cw > cv * aw) by (nonlinear_arith)
            requires
                (av * cw) * bw > (cv * aw) * bw,
                0 < bw,
        ;
    }
}

/// Standing before is a strict weak order: nothing stands before itself, and where `c` stands
/// before `a`, it stands before `b` or `b` stands before `a`.
pub proof fn lemma_precedes_is_strict_weak_order(a: Candidate, b: Candidate, c: Candidate)
    ensures
        !spec_precedes(a, a),
        spec_precedes(a, b) ==> !spec_precedes(b, a),
        spec_precedes(c, a) ==> spec_precedes(c, b) || spec_precedes(b, a),
{
    let (av, aw) = (a.value as int, a.weight as int);
    let (bv, bw) = (b.value as int, b.weight as int);
    let (cv, cw) = (c.value as int, c.weight as int);
    if aw > 0 && bw > 0 && cw > 0 {
        if av * bw >= bv * aw && bv * cw >= cv * bw {
            lemma_cross_transitive(av, aw, bv, bw, cv, cw);
        }
        if cv * bw >= bv * cw && bv * aw >= av * bw {
            lemma_cross_transitive(cv, cw, bv, bw, av, aw);
        }
    }
}

/// Exchanging two elements of a sequence keeps what it holds.
pub proof fn lemma_swap_keeps_multiset(s: Seq<usize>, i: int, j: int)
    requires
        0 <= i < s.len(),
        0 <= j < s.len(),
    ensures
        s.update(i, s[j]).update(j, s[i]).to_multiset() == s.to_multiset(),
{
    broadcast use vstd::multiset::group_multiset_axioms;

    let first = s.update(i, s[j]);
    let second = first.update(j, s[i]);
    vstd::seq_lib::to_multiset_update(s, i, s[j]);
    vstd::seq_lib::to_multiset_update(first, j, s[i]);
    let m = s.to_multiset();
    vstd::seq_lib::to_multiset_contains(s, s[i]);
    vstd::seq_lib::to_multiset_contains(s, s[j]);
    assert(s.contains(s[i]) && s.contains(s[j]));
    assert(first[j] == s[j]);
    assert forall|x: usize| second.to_multiset().count(x) == m.count(x) by {
        assert(m.insert(s[j]).count(x) == m.count(x) + if x == s[j] { 1int } else { 0int });
        assert(m.insert(s[j]).remove(s[i]).count(x) == m.insert(s[j]).count(x) - if x == s[i] { 1int } else { 0int });
    }
    assert(second.to_multiset() =~= m);
}

/// Whether `a` stands before `b` by descending value per weight unit, ties broken by
/// descending value.
pub fn precedes(a: &Candidate, b: &Candidate) -> (before: bool)
    ensures
        before == spec_precedes(*a, *b),
{
    let (av, aw): (u64, u32) = (a.value, a.weight);
    let (bv, bw): (u64, u32) = (b.value, b.weight);
    assert(av * bw <= 0xffff_ffff_ffff_ffff * 0xffff_ffff && bv * aw <= 0xffff_ffff_ffff_ffff
        * 0xffff_ffff) by (nonlinear_arith)
        requires
            0 <= av <= 0xffff_ffff_ffff_ffff,
            0 <= bv <= 0xffff_ffff_ffff_ffff,
            0 <= aw <= 0xffff_ffff,
            0 <= bw <= 0xffff_ffff,
    ;
    let left: u128 = (av as u128) * (bw as u128);
    let right: u128 = (bv as u128) * (aw as u128);
    let a_above: bool = bw > 0 && (aw == 0 || left > right);
    let b_above: bool = aw > 0 && (bw == 0 || right > left);
    a_above || (!b_above && av > bv)
}

/// Whether `precedes` is a strict weak order on the indices below `bound`: no two indices stand
/// before each other, and where `c` stands before `a`, it stands before `b` or `b` stands before
/// `a`.
pub open spec fn spec_strict_weak_order(precedes: spec_fn(usize, usize) -> bool, bound: usize) -> bool {
    &&& forall|a: usize, b: usize|
        a < bound && b < bound && #[trigger] precedes(a, b) ==> !precedes(b, a)
    &&& forall|a: usize, b: usize, c: usize|
        #![trigger precedes(c, a), precedes(c, b)]
        #![trigger precedes(c, a), precedes(b, a)]
        a < bound && b < bound && c < bound && precedes(c, a) ==> precedes(c, b) || precedes(b, a)
}

/// Whether no index of `order` stands after one that it precedes.
pub open spec fn spec_sorted_by(precedes: spec_fn(usize, usize) -> bool, order: Seq<usize>) -> bool {
    forall|p: int, q: int|
        0 <= p < q < order.len() ==> !precedes(#[trigger] order[q], #[trigger] order[p])
}

/// Whether `order` keeps indices of which neither precedes the other in the order in which
/// `before` has them.
pub open spec fn spec_stable_by(
    precedes: spec_fn(usize, usize) -> bool,
    before: Seq<usize>,
    order: Seq<usize>,
) -> bool {
    forall|p: int, q: int, i: int, j: int|
        0 <= p < q < order.len() && 0 <= i < before.len() && 0 <= j < before.len()
            && #[trigger] before[i] == #[trigger] order[p] && #[trigger] before[j]
            == #[trigger] order[q] && !precedes(order[p], order[q]) ==> i < j
}

/// Sorts `order` so that no index stands after one that it precedes; indices of which neither
/// precedes the other keep their order. `precedes` decides as `relation` says.
pub(crate) fn stable_sort<F: Fn(usize, usize) -> bool>(
    order: &mut Vec<usize>,
    bound: usize,
    precedes: F,
    Ghost(relation): Ghost<spec_fn(usize, usize) -> bool>,
)
    requires
        forall|p: int| 0 <= p < old(order)@.len() ==> #[trigger] old(order)@[p] < bound,
        old(order)@.no_duplicates(),
        forall|a: usize, b: usize| a < bound && b < bound ==> call_requires(precedes, (a, b)),
        forall|a: usize, b: usize, before: bool|
            a < bound && b < bound && call_ensures(precedes, (a, b), before) ==> before
                == relation(a, b),
        spec_strict_weak_order(relation, bound),
    ensures
        final(order)@.len() == old(order)@.len(),
        final(order)@.to_multiset() == old(order)@.to_multiset(),
        spec_sorted_by(relation, final(order)@),
        spec_stable_by(relation, old(order)@, final(order)@),
{
    let n: usize = order.len();
    let mut k: usize = 0;
    while k < n
        invariant
            k <= n,
            n == order@.len(),
            n == old(order)@.len(),
            old(order)@.no_duplicates(),
            forall|a: usize, b: usize| a < bound && b < bound ==> call_requires(precedes, (a, b)),
            forall|a: usize, b: usize, before: bool|
                a < bound && b < bound && call_ensures(precedes, (a, b), before) ==> before
                    == relation(a, b),
            spec_strict_weak_order(relation, bound),
            forall|p: int| 0 <= p < n ==> #[trigger] old(order)@[p] < bound,
            forall|p: int| 0 <= p < n ==> #[trigger] order@[p] < bound,
            order@.to_multiset() == old(order)@.to_multiset(),
            forall|p: int| k <= p < n ==> order@[p] == old(order)@[p],
            forall|p: int| 0 <= p < k ==> exists|i: int| 0 <= i < k && old(order)@[i] == #[trigger] order@[p],
            spec_sorted_by(relation, order@.take(k as int)),
            spec_stable_by(relation, old(order)@, order@.take(k as int)),
        decreases n - k,
    {
        let index: usize = order[k];
        let ghost pre = order@;
        let mut j: usize = k;
        while j > 0 && precedes(index, order[j - 1])
            invariant
                j <= k < n,
                n == order@.len(),
                n == pre.len(),
                index == pre[k as int],
                index < bound,
                forall|a: usize, b: usize| a < bound && b < bound ==> call_requires(precedes, (a, b)),
                forall|a: usize, b: usize, before: bool|
                    a < bound && b < bound && call_ensures(precedes, (a, b), before) ==> before
                        == relation(a, b),
                forall|p: int| 0 <= p < n ==> #[trigger] pre[p] < bound,
                forall|p: int| 0 <= p < n ==> #[trigger] order@[p] < bound,
                order@.to_multiset() == pre.to_multiset(),
                order@[j as int] == index,
                forall|p: int| 0 <= p < j ==> order@[p] == pre[p],
                forall|p: int| j < p <= k ==> order@[p] == pre[p - 1],
                forall|p: int| k < p < n ==> order@[p] == pre[p],
                forall|p: int| j < p <= k ==> relation(index, #[trigger] order@[p]),
            decreases j,
        {
            let other: usize = order[j - 1];
            proof {
                lemma_swap_keeps_multiset(order@, j as int, j - 1);
            }
            order[j] = other;
            order[j - 1] = index;
            j -= 1;
        }
        proof {
            let ghost now = order@.take(k + 1);
            let ghost was = pre.take(k as int);
            assert forall|p: int, q: int| 0 <= p < q < now.len() implies !relation(
                #[trigger] now[q],
                #[trigger] now[p],
            ) by {
                if q < j {
                    assert(now[p] == was[p] && now[q] == was[q]);
                } else if q == j {
                    assert(now[p] == was[p]);
                    assert(now[j - 1] == was[j - 1]);
                    if p < j - 1 {
                        assert(!relation(was[j - 1], was[p]));
                    }
                    assert(!relation(index, now[j - 1]));
                    assert(relation(index, now[p]) ==> relation(index, now[j - 1]) || relation(
                        now[j - 1],
                        now[p],
                    ));
                } else if p == j {
                    assert(relation(index, now[q]));
                } else if p > j {
                    assert(now[p] == was[p - 1] && now[q] == was[q - 1]);
                } else {
                    assert(now[p] == was[p] && now[q] == was[q - 1]);
                }
            }
            assert forall|p: int, q: int, i: int, l: int|
                0 <= p < q < now.len() && 0 <= i < old(order)@.len() && 0 <= l < old(order)@.len()
                    && #[trigger] old(order)@[i] == #[trigger] now[p] && #[trigger] old(order)@[l]
                    == #[trigger] now[q] && !relation(now[p], now[q]) implies i < l by {
                if q == j {
                    assert(now[p] == was[p]);
                    let w = choose|w: int| 0 <= w < k && old(order)@[w] == pre[p];
                    assert(l == k);
                } else if p == j {
                } else {
                    let pp = if p < j {
                        p
                    } else {
                        p - 1
                    };
                    let qq = if q < j {
                        q
                    } else {
                        q - 1
                    };
                    assert(now[p] == was[pp] && now[q] == was[qq]);
                }
            }
            assert forall|p: int| 0 <= p < k + 1 implies exists|i: int|
                0 <= i < k + 1 && old(order)@[i] == #[trigger] order@[p] by {
                if p == j {
                    assert(old(order)@[k as int] == order@[p]);
                } else {
                    let pp = if p < j {
                        p
                    } else {
                        p - 1
                    };
                    let w = choose|w: int| 0 <= w < k && old(order)@[w] == pre[pp];
                    assert(old(order)@[w] == order@[p]);
                }
            }
        }
        k += 1;
    }
    proof {
        assert(order@.take(n as int) =~= order@);
    }
}

/// Sorts `order` by descending value per weight unit of the candidates that it lists, ties
/// broken by descending value; candidates that still tie keep their order.
pub fn sort_by_descending_value_pwu(order: &mut Vec<usize>, candidates: &[Candidate])
    requires
        forall|p: int| 0 <= p < old(order)@.len() ==> #[trigger] old(order)@[p] < candidates@.len(),
        old(order)@.no_duplicates(),
    ensures
        final(order)@.len() == old(order)@.len(),
        final(order)@.to_multiset() == old(order)@.to_multiset(),
        spec_sorted(candidates@, final(order)@),
        spec_stable(candidates@, old(order)@, final(order)@),
{
    let ghost relation = |a: usize, b: usize| spec_precedes(candidates@[a as int], candidates@[b as int]);
    let by_value_pwu = |a: usize, b: usize| -> (before: bool)
        requires
            a < candidates@.len(),
            b < candidates@.len(),
        ensures
            before == spec_precedes(candidates@[a as int], candidates@[b as int]),
        { precedes(&candidates[a], &candidates[b]) };
    proof {
        assert forall|a: usize, b: usize, c: usize|
            #![trigger relation(c, a), relation(c, b)]
            #![trigger relation(c, a), relation(b, a)]
            relation(c, a) implies relation(c, b) || relation(b, a) by {
            lemma_precedes_is_strict_weak_order(
                candidates@[a as int],
                candidates@[b as int],
                candidates@[c as int],
            );
        }
        assert forall|a: usize, b: usize| #[trigger] relation(a, b) implies !relation(b, a) by {
            lemma_precedes_is_strict_weak_order(
                candidates@[a as int],
                candidates@[b as int],
                candidates@[a as int],
            );
        }
    }
    stable_sort(order, candidates.len(), by_value_pwu, Ghost(relation));
}

/// Whether `a` may stand directly before `b` by what `precedes` has answered: that `b` does not
/// stand before `a`, or that `a` stands before `b`.
pub open spec fn spec_placed<F: Fn(usize, usize) -> bool>(precedes: F, a: usize, b: usize) -> bool {
    call_ensures(precedes, (b, a), false) || call_ensures(precedes, (a, b), true)
}

/// Whether every two indices that `order` has the other way round than `before` were put so by
/// what `precedes` has answered: the one that now stands first stands before the other.
pub open spec fn spec_moved<F: Fn(usize, usize) -> bool>(
    precedes: F,
    before: Seq<usize>,
    order: Seq<usize>,
) -> bool {
    forall|p: int, q: int, i: int, j: int|
        0 <= p < q < order.len() && 0 <= j < i < before.len() && #[trigger] before[i]
            == #[trigger] order[p] && #[trigger] before[j] == #[trigger] order[q] ==> call_ensures(
            precedes,
            (order[p], order[q]),
            true,
        )
}

/// One insertion keeps the record of what was moved: where the index at `k` has been moved to
/// `j` past indices that it precedes, the first `k + 1` indices are still those that stood
/// there, and every two of them that have changed their order were put so by `precedes`.
proof fn lemma_insertion_step<F: Fn(usize, usize) -> bool>(
    precedes: F,
    before: Seq<usize>,
    pre: Seq<usize>,
    now: Seq<usize>,
    k: int,
    j: int,
)
    requires
        0 <= j <= k < before.len(),
        before.len() == pre.len(),
        before.len() == now.len(),
        before.no_duplicates(),
        forall|p: int| k <= p < pre.len() ==> pre[p] == before[p],
        forall|p: int| 0 <= p < k ==> exists|i: int| 0 <= i < k && before[i] == #[trigger] pre[p],
        spec_moved(precedes, before, pre.take(k)),
        now[j] == pre[k],
        forall|p: int| 0 <= p < j ==> now[p] == pre[p],
        forall|p: int| j < p <= k ==> now[p] == pre[p - 1],
        forall|p: int| k < p < now.len() ==> now[p] == pre[p],
        forall|p: int| j < p <= k ==> call_ensures(precedes, (pre[k], #[trigger] now[p]), true),
    ensures
        forall|p: int| k + 1 <= p < now.len() ==> now[p] == before[p],
        forall|p: int|
            0 <= p < k + 1 ==> exists|i: int| 0 <= i < k + 1 && before[i] == #[trigger] now[p],
        spec_moved(precedes, before, now.take(k + 1)),
{
    let first = now.take(k + 1);
    let was = pre.take(k);
    assert forall|p: int| 0 <= p < k + 1 implies exists|i: int|
        0 <= i < k + 1 && before[i] == #[trigger] now[p] by {
        if p == j {
            assert(before[k] == now[p]);
        } else {
            let pp = if p < j {
                p
            } else {
                p - 1
            };
            let w = choose|w: int| 0 <= w < k && before[w] == pre[pp];
            assert(before[w] == now[p]);
        }
    }
    assert forall|p: int, q: int, i: int, l: int|
        0 <= p < q < first.len() && 0 <= l < i < before.len() && #[trigger] before[i]
            == #[trigger] first[p] && #[trigger] before[l] == #[trigger] first[q] implies call_ensures(
        precedes,
        (first[p], first[q]),
        true,
    ) by {
        if q == j {
            assert(first[p] == was[p]);
            let w = choose|w: int| 0 <= w < k && before[w] == pre[p];
            assert(i == w);
            assert(l == k);
        } else if p == j {
            assert(call_ensures(precedes, (pre[k], now[q]), true));
        } else {
            let pp = if p < j {
                p
            } else {
                p - 1
            };
            let qq = if q < j {
                q
            } else {
                q - 1
            };
            assert(first[p] == was[pp] && first[q] == was[qq]);
            assert(before[i] == was[pp] && before[l] == was[qq]);
        }
    }
}

/// Sorts `order` by insertion: each index is moved towards the front past those that it
/// precedes, up to the first that it does not precede.
pub(crate) fn insertion_sort<F: Fn(usize, usize) -> bool>(order: &mut Vec<usize>, bound: usize, precedes: F)
    requires
        forall|p: int| 0 <= p < old(order)@.len() ==> #[trigger] old(order)@[p] < bound,
        old(order)@.no_duplicates(),
        forall|a: usize, b: usize| a < bound && b < bound ==> call_requires(precedes, (a, b)),
    ensures
        final(order)@.len() == old(order)@.len(),
        final(order)@.to_multiset() == old(order)@.to_multiset(),
        forall|p: int|
            0 <= p < final(order)@.len() - 1 ==> spec_placed(
                precedes,
                #[trigger] final(order)@[p],
                final(order)@[p + 1],
            ),
        spec_moved(precedes, old(order)@, final(order)@),
{
    let n: usize = order.len();
    let mut k: usize = 0;
    while k < n
        invariant
            k <= n,
            n == order@.len(),
            n == old(order)@.len(),
            old(order)@.no_duplicates(),
            forall|a: usize, b: usize| a < bound && b < bound ==> call_requires(precedes, (a, b)),
            forall|p: int| 0 <= p < n ==> #[trigger] order@[p] < bound,
            order@.to_multiset() == old(order)@.to_multiset(),
            forall|p: int| 0 <= p < k - 1 ==> spec_placed(precedes, #[trigger] order@[p], order@[p + 1]),
            forall|p: int| k <= p < n ==> order@[p] == old(order)@[p],
            forall|p: int| 0 <= p < k ==> exists|i: int| 0 <= i < k && old(order)@[i] == #[trigger] order@[p],
            spec_moved(precedes, old(order)@, order@.take(k as int)),
        decreases n - k,
    {
        let index: usize = order[k];
        let ghost pre = order@;
        let mut j: usize = k;
        loop
            invariant
                j <= k < n,
                n == order@.len(),
                n == pre.len(),
                index < bound,
                index == pre[k as int],
                forall|a: usize, b: usize| a < bound && b < bound ==> call_requires(precedes, (a, b)),
                forall|p: int| 0 <= p < n ==> #[trigger] order@[p] < bound,
                order@.to_multiset() == old(order)@.to_multiset(),
                order@[j as int] == index,
                forall|p: int| 0 <= p < j ==> order@[p] == pre[p],
                forall|p: int| j < p <= k ==> order@[p] == pre[p - 1],
                forall|p: int| k < p < n ==> order@[p] == pre[p],
                forall|p: int|
                    j < p <= k ==> call_ensures(precedes, (index, #[trigger] order@[p]), true),
                forall|p: int|
                    0 <= p < k && p != j - 1 && p != j ==> spec_placed(
                        precedes,
                        #[trigger] order@[p],
                        order@[p + 1],
                    ),
                j < k ==> spec_placed(precedes, index, order@[j + 1]),
                0 < j < k ==> spec_placed(precedes, order@[j - 1], order@[j + 1]),
            ensures
                j <= k < n,
                n == order@.len(),
                forall|p: int| 0 <= p < n ==> #[trigger] order@[p] < bound,
                order@.to_multiset() == old(order)@.to_multiset(),
                order@[j as int] == index,
                forall|p: int| 0 <= p < j ==> order@[p] == pre[p],
                forall|p: int| j < p <= k ==> order@[p] == pre[p - 1],
                forall|p: int| k < p < n ==> order@[p] == pre[p],
                forall|p: int|
                    j < p <= k ==> call_ensures(precedes, (index, #[trigger] order@[p]), true),
                forall|p: int| 0 <= p < k ==> spec_placed(precedes, #[trigger] order@[p], order@[p + 1]),
            decreases j,
        {
            if j == 0 {
                break ;
            }
            let other: usize = order[j - 1];
            if !precedes(index, other) {
                break ;
            }
            proof {
                lemma_swap_keeps_multiset(order@, j as int, j - 1);
            }
            order[j] = other;
            order[j - 1] = index;
            j -= 1;
        }
        proof {
            lemma_insertion_step(precedes, old(order)@, pre, order@, k as int, j as int);
        }
        k += 1;
    }
    proof {
        assert(order@.take(n as int) =~= order@);
    }
}

/// The candidate with the index `index`, together with the index.
pub open spec fn spec_entry(candidates: Seq<Candidate>, index: usize) -> (usize, Candidate) {
    (index, candidates[index as int])
}

/// How a sort changes a selector: but for the order, which holds what it held, nothing changes.
pub open spec fn spec_reordered(before: SelectorView, after: SelectorView) -> bool {
    &&& after.wf()
    &&& after.candidates == before.candidates
    &&& after.selected == before.selected
    &&& after.banned == before.banned
    &&& after.order.len() == before.order.len()
    &&& after.order.to_multiset() == before.order.to_multiset()
}

/// Whether the candidate at the place `p` of the order may stand directly before the one after
/// it by what `compare` has answered: that the second is not less than the first, or that the
/// first is less than the second.
pub open spec fn in_comparison_order<F: Fn((usize, Candidate), (usize, Candidate)) -> Ordering>(
    compare: F,
    selection: SelectorView,
    p: int,
) -> bool {
    let first = spec_entry(selection.candidates, selection.order[p]);
    let second = spec_entry(selection.candidates, selection.order[p + 1]);
    ||| call_ensures(compare, (first, second), Ordering::Less)
    ||| call_ensures(compare, (second, first), Ordering::Equal)
    ||| call_ensures(compare, (second, first), Ordering::Greater)
}

/// Whether every two candidates that `after` has the other way round than `before` were put so
/// by what `compare` has answered: the one that now stands first is less than the other. So
/// candidates of which `compare` says that neither is less keep their order.
pub open spec fn moved_by_comparison<F: Fn((usize, Candidate), (usize, Candidate)) -> Ordering>(
    compare: F,
    before: SelectorView,
    after: SelectorView,
) -> bool {
    forall|p: int, q: int, i: int, j: int|
        0 <= p < q < after.order.len() && 0 <= j < i < before.order.len()
            && #[trigger] before.order[i] == #[trigger] after.order[p]
            && #[trigger] before.order[j] == #[trigger] after.order[q] ==> call_ensures(
            compare,
            (
                spec_entry(after.candidates, after.order[p]),
                spec_entry(after.candidates, after.order[q]),
            ),
            Ordering::Less,
        )
}

/// Whether `compare` can be asked of the two candidates `first` and `second`.
pub open spec fn accepts_pair<F: Fn((usize, Candidate), (usize, Candidate)) -> Ordering>(
    compare: &F,
    first: (usize, Candidate),
    second: (usize, Candidate),
) -> bool {
    call_requires(*compare, (first, second))
}

/// Whether `compare` can be asked of every two candidates of `selection`, each with its index.
pub open spec fn compares_candidates<F: Fn((usize, Candidate), (usize, Candidate)) -> Ordering>(
    compare: F,
    selection: SelectorView,
) -> bool {
    forall|i: usize, j: usize|
        i < selection.candidates.len() && j < selection.candidates.len() ==> call_requires(
            compare,
            (
                #[trigger] spec_entry(selection.candidates, i),
                #[trigger] spec_entry(selection.candidates, j),
            ),
        )
}

impl<'a> CoinSelector<'a> {
    /// Sorts the candidates by the comparison function, by insertion: each candidate is moved
    /// towards the front past those that it is less than, up to the first that it is not less
    /// than. Candidates of which neither is less than the other keep their order.
    ///
    /// The comparison function takes the candidates's index and the [`Candidate`]; it is asked
    /// of the candidates of the selector only.
    ///
    /// Note this function does not change the index of the candidates after sorting, just the
    /// order in which they will be returned when iterating over them in [`candidates`] and
    /// [`unselected`].
    ///
    /// [`candidates`]: CoinSelector::candidates
    /// [`unselected`]: CoinSelector::unselected
    pub fn sort_candidates_by<F>(&mut self, compare: F) where
        F: Fn((usize, Candidate), (usize, Candidate)) -> Ordering,

        requires
            old(self).wf(),
            compares_candidates(compare, old(self)@),
        ensures
            spec_reordered(old(self)@, final(self)@),
            forall|p: int|
                0 <= p < final(self)@.order.len() - 1 ==> #[trigger] in_comparison_order(
                    compare,
                    final(self)@,
                    p,
                ),
            moved_by_comparison(compare, old(self)@, final(self)@),
    {
        let mut order: Vec<usize> = self.order();
        let candidates: &[Candidate] = self.candidate_list();
        let comparison: &F = &compare;
        let is_less = |a: usize, b: usize| -> (less: bool)
            requires
                a < candidates@.len(),
                b < candidates@.len(),
                accepts_pair(comparison, spec_entry(candidates@, a), spec_entry(candidates@, b)),
            ensures
                less ==> call_ensures(
                    *comparison,
                    (spec_entry(candidates@, a), spec_entry(candidates@, b)),
                    Ordering::Less,
                ),
                !less ==> call_ensures(
                    *comparison,
                    (spec_entry(candidates@, a), spec_entry(candidates@, b)),
                    Ordering::Equal,
                ) || call_ensures(
                    *comparison,
                    (spec_entry(candidates@, a), spec_entry(candidates@, b)),
                    Ordering::Greater,
                ),
            {
                match comparison((a, candidates[a]), (b, candidates[b])) {
                    Ordering::Less => true,
                    Ordering::Equal => false,
                    Ordering::Greater => false,
                }
            };
        let ghost before = order@;
        insertion_sort(&mut order, candidates.len(), is_less);
        let ghost sorted = SelectorView { order: order@, ..self@ };
        proof {
            assert forall|p: int| 0 <= p < order@.len() - 1 implies #[trigger] in_comparison_order(
                compare,
                sorted,
                p,
            ) by {
                assert(spec_placed(is_less, order@[p], order@[p + 1]));
            }
            assert forall|p: int, q: int, i: int, j: int|
                0 <= p < q < sorted.order.len() && 0 <= j < i < before.len()
                    && #[trigger] before[i] == #[trigger] sorted.order[p] && #[trigger] before[j]
                    == #[trigger] sorted.order[q] implies call_ensures(
                compare,
                (
                    spec_entry(sorted.candidates, sorted.order[p]),
                    spec_entry(sorted.candidates, sorted.order[q]),
                ),
                Ordering::Less,
            ) by {
                assert(call_ensures(is_less, (order@[p], order@[q]), true));
            }
        }
        self.reorder(order);
    }
}

/// Whether `key` is the key that `key_fn` gives the candidate with the index `index`.
pub open spec fn spec_is_key<F: Fn((usize, Candidate)) -> i128>(
    key_fn: F,
    candidates: Seq<Candidate>,
    index: usize,
    key: i128,
) -> bool {
    call_ensures(key_fn, (spec_entry(candidates, index),), key)
}

impl<'a> CoinSelector<'a> {
    /// Sorts the candidates by ascending key; candidates with the same key keep their order.
    ///
    /// The key function takes the candidates's index and the [`Candidate`]; it is asked of the
    /// candidates of the selector only. It has to give a candidate the same key whenever it is
    /// asked.
    ///
    /// Note this function does not change the index of the candidates after sorting, just the
    /// order in which they will be returned when iterating over them in [`candidates`] and
    /// [`unselected`].
    ///
    /// [`candidates`]: CoinSelector::candidates
    /// [`unselected`]: CoinSelector::unselected
    pub fn sort_candidates_by_key<F>(&mut self, key_fn: F) where F: Fn((usize, Candidate)) -> i128
        requires
            old(self).wf(),
            forall|i: usize|
                i < old(self)@.candidates.len() ==> call_requires(
                    key_fn,
                    (#[trigger] spec_entry(old(self)@.candidates, i),),
                ),
            forall|i: usize, first: i128, second: i128|
                i < old(self)@.candidates.len() && #[trigger] spec_is_key(
                    key_fn,
                    old(self)@.candidates,
                    i,
                    first,
                ) && #[trigger] spec_is_key(key_fn, old(self)@.candidates, i, second) ==> first
                    == second,
        ensures
            spec_reordered(old(self)@, final(self)@),
            forall|p: int, q: int, first: i128, second: i128|
                0 <= p < q < final(self)@.order.len() && #[trigger] spec_is_key(
                    key_fn,
                    final(self)@.candidates,
                    final(self)@.order[p],
                    first,
                ) && #[trigger] spec_is_key(
                    key_fn,
                    final(self)@.candidates,
                    final(self)@.order[q],
                    second,
                ) ==> first <= second,
            forall|p: int, q: int, i: int, j: int, key: i128|
                0 <= p < q < final(self)@.order.len() && 0 <= i < old(self)@.order.len() && 0 <= j
                    < old(self)@.order.len() && #[trigger] old(self)@.order[i]
                    == final(self)@.order[p] && #[trigger] old(self)@.order[j]
                    == final(self)@.order[q] && #[trigger] spec_is_key(
                    key_fn,
                    final(self)@.candidates,
                    final(self)@.order[p],
                    key,
                ) && #[trigger] spec_is_key(
                    key_fn,
                    final(self)@.candidates,
                    final(self)@.order[q],
                    key,
                ) ==> i < j,
    {
        let mut order: Vec<usize> = self.order();
        let candidates: &[Candidate] = self.candidate_list();
        let n: usize = candidates.len();
        let mut keys: Vec<i128> = Vec::new();
        let mut i: usize = 0;
        while i < n
            invariant
                i <= n,
                n == candidates@.len(),
                keys@.len() == i,
                forall|i: usize|
                    i < candidates@.len() ==> call_requires(
                        key_fn,
                        (#[trigger] spec_entry(candidates@, i),),
                    ),
                forall|k: int|
                    0 <= k < i ==> spec_is_key(key_fn, candidates@, k as usize, #[trigger] keys@[k]),
            decreases n - i,
        {
            assert((i, candidates@[i as int]) == spec_entry(candidates@, i));
            keys.push(key_fn((i, candidates[i])));
            i += 1;
        }
        let ghost relation = |a: usize, b: usize| keys@[a as int] < keys@[b as int];
        let by_key = |a: usize, b: usize| -> (before: bool)
            requires
                a < keys@.len(),
                b < keys@.len(),
            ensures
                before == (keys@[a as int] < keys@[b as int]),
            { keys[a] < keys[b] };
        let ghost before = order@;
        stable_sort(&mut order, n, by_key, Ghost(relation));
        proof {
            assert forall|p: int, q: int, first: i128, second: i128|
                0 <= p < q < order@.len() && #[trigger] spec_is_key(
                    key_fn,
                    candidates@,
                    order@[p],
                    first,
                ) && #[trigger] spec_is_key(key_fn, candidates@, order@[q], second) implies first
                <= second by {
                vstd::seq_lib::to_multiset_contains(order@, order@[p]);
                vstd::seq_lib::to_multiset_contains(order@, order@[q]);
                vstd::seq_lib::to_multiset_contains(before, order@[p]);
                vstd::seq_lib::to_multiset_contains(before, order@[q]);
                assert(order@.contains(order@[p]) && order@.contains(order@[q]));
                assert(spec_is_key(key_fn, candidates@, order@[p], keys@[order@[p] as int]));
                assert(spec_is_key(key_fn, candidates@, order@[q], keys@[order@[q] as int]));
                assert(!relation(order@[q], order@[p]));
            }
            assert forall|p: int, q: int, i: int, j: int, key: i128|
                0 <= p < q < order@.len() && 0 <= i < before.len() && 0 <= j < before.len()
                    && #[trigger] before[i] == order@[p] && #[trigger] before[j] == order@[q]
                    && #[trigger] spec_is_key(key_fn, candidates@, order@[p], key)
                    && #[trigger] spec_is_key(key_fn, candidates@, order@[q], key) implies i
                < j by {
                assert(spec_is_key(key_fn, candidates@, order@[p], keys@[order@[p] as int]));
                assert(spec_is_key(key_fn, candidates@, order@[q], keys@[order@[q] as int]));
                assert(!relation(order@[p], order@[q]));
            }
        }
        self.reorder(order);
    }

    /// Sorts the candidates by descending value per weight unit, tie-breaking with value.
    /// Candidates that still tie keep their order.
    ///
    /// Note this function does not change the index of the candidates after sorting, just the
    /// order in which they will be returned when iterating over them in [`candidates`] and
    /// [`unselected`].
    ///
    /// [`candidates`]: CoinSelector::candidates
    /// [`unselected`]: CoinSelector::unselected
    pub fn sort_candidates_by_descending_value_pwu(&mut self)
        requires
            old(self).wf(),
        ensures
            spec_reordered(old(self)@, final(self)@),
            final(self).wf(),
            final(self)@.candidates == old(self)@.candidates,
            final(self)@.selected == old(self)@.selected,
            final(self)@.banned == old(self)@.banned,
            spec_sorted(final(self)@.candidates, final(self)@.order),
            spec_stable(final(self)@.candidates, old(self)@.order, final(self)@.order),
    {
        let mut order: Vec<usize> = self.order();
        sort_by_descending_value_pwu(&mut order, self.candidate_list());
        self.reorder(order);
    }
}

} // verus!
