//! Proof support for the auction model: non-negativity and bounds of the
//! demand and value sums, prefix reasoning on selections, and the properties
//! of the selection enumeration.

use vstd::prelude::*;

use crate::model::{
    all_sels, bid_demand, bids_of, done_branches, exts, feas_pred, feasible, fits,
    group_demand_total, group_max, group_value_total, groups_bounded, keep_pred, list_others,
    max_sum,
    max_value_of, none_sel, opt_value, others_value, own_value, payment_of, reduced_sel,
    remove_bidder, sel_complete, sel_demand, sel_value, sel_wf, total_demand, total_demand_upto,
    total_value, total_value_upto, unremoved_sel, GroupsView, Selection, StockView,
};
use crate::types::BidView;

verus! {

/// The demand of a selection is a sum of non-negative quantities.
pub proof fn lemma_sel_demand_nonneg(gv: GroupsView, sel: Selection, id: Seq<char>)
    ensures
        sel_demand(gv, sel, id) >= 0,
    decreases sel.len(),
{
    if sel.len() > 0 {
        lemma_sel_demand_nonneg(gv, sel.drop_last(), id);
    }
}

/// The value of a selection is a sum of non-negative values.
pub proof fn lemma_sel_value_nonneg(gv: GroupsView, sel: Selection)
    ensures
        sel_value(gv, sel) >= 0,
    decreases sel.len(),
{
    if sel.len() > 0 {
        lemma_sel_value_nonneg(gv, sel.drop_last());
    }
}

pub proof fn lemma_group_max_nonneg(grp: Seq<BidView>)
    ensures
        group_max(grp) >= 0,
    decreases grp.len(),
{
    if grp.len() > 0 {
        lemma_group_max_nonneg(grp.drop_last());
    }
}

pub proof fn lemma_max_sum_nonneg(gv: GroupsView, g: int)
    ensures
        max_sum(gv, g) >= 0,
    decreases gv.len() - g,
{
    if 0 <= g && g < gv.len() {
        lemma_group_max_nonneg(gv[g]);
        lemma_max_sum_nonneg(gv, g + 1);
    }
}

pub proof fn lemma_group_value_total_nonneg(grp: Seq<BidView>)
    ensures
        group_value_total(grp) >= 0,
    decreases grp.len(),
{
    if grp.len() > 0 {
        lemma_group_value_total_nonneg(grp.drop_last());
    }
}

pub proof fn lemma_group_demand_total_nonneg(grp: Seq<BidView>, id: Seq<char>)
    ensures
        group_demand_total(grp, id) >= 0,
    decreases grp.len(),
{
    if grp.len() > 0 {
        lemma_group_demand_total_nonneg(grp.drop_last(), id);
    }
}

pub proof fn lemma_total_value_upto_nonneg(gv: GroupsView, k: int)
    ensures
        total_value_upto(gv, k) >= 0,
    decreases k,
{
    if k > 0 {
        lemma_total_value_upto_nonneg(gv, k - 1);
        lemma_group_value_total_nonneg(gv[k - 1]);
    }
}

pub proof fn lemma_total_demand_upto_nonneg(gv: GroupsView, k: int, id: Seq<char>)
    ensures
        total_demand_upto(gv, k, id) >= 0,
    decreases k,
{
    if k > 0 {
        lemma_total_demand_upto_nonneg(gv, k - 1, id);
        lemma_group_demand_total_nonneg(gv[k - 1], id);
    }
}

/// The partial value sums grow with the number of groups counted.
pub proof fn lemma_total_value_upto_mono(gv: GroupsView, k1: int, k2: int)
    requires
        k1 <= k2,
    ensures
        total_value_upto(gv, k1) <= total_value_upto(gv, k2),
    decreases k2 - k1,
{
    if k1 < k2 {
        lemma_total_value_upto_mono(gv, k1, k2 - 1);
        if k2 > 0 {
            lemma_group_value_total_nonneg(gv[k2 - 1]);
        }
        if k2 <= 0 {
            lemma_total_value_upto_nonneg(gv, k1);
        }
    }
}

/// The partial demand sums grow with the number of groups counted.
pub proof fn lemma_total_demand_upto_mono(gv: GroupsView, k1: int, k2: int, id: Seq<char>)
    requires
        k1 <= k2,
    ensures
        total_demand_upto(gv, k1, id) <= total_demand_upto(gv, k2, id),
    decreases k2 - k1,
{
    if k1 < k2 {
        lemma_total_demand_upto_mono(gv, k1, k2 - 1, id);
        if k2 > 0 {
            lemma_group_demand_total_nonneg(gv[k2 - 1], id);
        }
        if k2 <= 0 {
            lemma_total_demand_upto_nonneg(gv, k1, id);
        }
    }
}

/// One bid's value is at most the value sum of its group.
pub proof fn lemma_elem_value_le_group_total(grp: Seq<BidView>, i: int)
    requires
        0 <= i < grp.len(),
    ensures
        grp[i].value as int <= group_value_total(grp),
    decreases grp.len(),
{
    if i == grp.len() - 1 {
        lemma_group_value_total_nonneg(grp.drop_last());
    } else {
        lemma_elem_value_le_group_total(grp.drop_last(), i);
    }
}

/// One bid's demand is at most the demand sum of its group.
pub proof fn lemma_elem_demand_le_group_total(grp: Seq<BidView>, i: int, id: Seq<char>)
    requires
        0 <= i < grp.len(),
    ensures
        bid_demand(grp[i].items, id) as int <= group_demand_total(grp, id),
    decreases grp.len(),
{
    if i == grp.len() - 1 {
        lemma_group_demand_total_nonneg(grp.drop_last(), id);
    } else {
        lemma_elem_demand_le_group_total(grp.drop_last(), i, id);
    }
}

/// One bid's value is at most the highest value in its group.
pub proof fn lemma_elem_value_le_group_max(grp: Seq<BidView>, i: int)
    requires
        0 <= i < grp.len(),
    ensures
        grp[i].value as int <= group_max(grp),
    decreases grp.len(),
{
    if i < grp.len() - 1 {
        lemma_elem_value_le_group_max(grp.drop_last(), i);
    }
}

/// The highest value in a group is at most the group's value sum.
pub proof fn lemma_group_max_le_total(grp: Seq<BidView>)
    ensures
        group_max(grp) <= group_value_total(grp),
    decreases grp.len(),
{
    if grp.len() > 0 {
        lemma_group_max_le_total(grp.drop_last());
        lemma_group_value_total_nonneg(grp.drop_last());
    }
}

/// The values decided before group `g` plus the bound on the rest never
/// exceed the sum of all bid values.
pub proof fn lemma_upto_plus_max_sum(gv: GroupsView, g: int)
    requires
        0 <= g <= gv.len(),
    ensures
        total_value_upto(gv, g) + max_sum(gv, g) <= total_value(gv),
    decreases gv.len() - g,
{
    if g == gv.len() {
    } else {
        lemma_group_max_le_total(gv[g]);
        lemma_upto_plus_max_sum(gv, g + 1);
    }
}

/// A well-formed selection's value is at most the value sum of the groups it
/// decides.
pub proof fn lemma_sel_value_le_upto(gv: GroupsView, sel: Selection)
    requires
        sel_wf(gv, sel),
    ensures
        sel_value(gv, sel) <= total_value_upto(gv, sel.len() as int),
    decreases sel.len(),
{
    if sel.len() > 0 {
        assert(sel_wf(gv, sel.drop_last()));
        lemma_sel_value_le_upto(gv, sel.drop_last());
        let g = sel.len() - 1;
        match sel.last() {
            Some(i) => {
                assert(sel[g] == sel.last());
                lemma_elem_value_le_group_total(gv[g], i as int);
            },
            None => {
                lemma_group_value_total_nonneg(gv[g]);
            },
        }
    }
}

/// A well-formed selection's demand is at most the demand sum of the groups
/// it decides.
pub proof fn lemma_sel_demand_le_upto(gv: GroupsView, sel: Selection, id: Seq<char>)
    requires
        sel_wf(gv, sel),
    ensures
        sel_demand(gv, sel, id) <= total_demand_upto(gv, sel.len() as int, id),
    decreases sel.len(),
{
    if sel.len() > 0 {
        assert(sel_wf(gv, sel.drop_last()));
        lemma_sel_demand_le_upto(gv, sel.drop_last(), id);
        let g = sel.len() - 1;
        match sel.last() {
            Some(i) => {
                assert(sel[g] == sel.last());
                lemma_elem_demand_le_group_total(gv[g], i as int, id);
            },
            None => {
                lemma_group_demand_total_nonneg(gv[g], id);
            },
        }
    }
}

/// A prefix is what taking its length from the longer selection gives.
pub proof fn lemma_prefix_take(p: Selection, t: Selection)
    requires
        p.is_prefix_of(t),
    ensures
        t.take(p.len() as int) == p,
{
    assert(t.take(p.len() as int) =~= p);
}

/// A prefix of the same length is the whole selection.
pub proof fn lemma_prefix_same_len(p: Selection, t: Selection)
    requires
        p.is_prefix_of(t),
        p.len() == t.len(),
    ensures
        p == t,
{
    assert(p =~= t);
}

/// Extending a prefix by the element that follows it keeps it a prefix.
pub proof fn lemma_push_prefix(p: Selection, t: Selection, x: Option<usize>)
    requires
        p.is_prefix_of(t),
        p.len() < t.len(),
        t[p.len() as int] == x,
    ensures
        p.push(x).is_prefix_of(t),
{
    assert(p.push(x) =~= t.subrange(0, p.len() as int + 1));
}

/// Being a prefix is transitive.
pub proof fn lemma_prefix_trans(a: Selection, b: Selection, c: Selection)
    requires
        a.is_prefix_of(b),
        b.is_prefix_of(c),
    ensures
        a.is_prefix_of(c),
{
    assert(a =~= c.subrange(0, a.len() as int));
}

/// The empty selection is a prefix of every selection.
pub proof fn lemma_empty_prefix(t: Selection)
    ensures
        Seq::<Option<usize>>::empty().is_prefix_of(t),
{
    assert(Seq::<Option<usize>>::empty() =~= t.subrange(0, 0));
}

/// A selection is a prefix of itself extended by one choice.
pub proof fn lemma_prefix_push(p: Selection, x: Option<usize>)
    ensures
        p.is_prefix_of(p.push(x)),
{
    assert(p =~= p.push(x).subrange(0, p.len() as int));
}

/// Unfolding the demand of one more decided group.
pub proof fn lemma_demand_take_step(gv: GroupsView, t: Selection, id: Seq<char>, k: int)
    requires
        0 <= k < t.len(),
    ensures
        sel_demand(gv, t.take(k + 1), id) == sel_demand(gv, t.take(k), id) + match t[k] {
            Some(i) => bid_demand(gv[k][i as int].items, id) as int,
            None => 0,
        },
{
    let p1 = t.take(k + 1);
    assert(p1.drop_last() =~= t.take(k));
    assert(p1.last() == t[k]);
}

/// Unfolding the value of one more decided group.
pub proof fn lemma_value_take_step(gv: GroupsView, t: Selection, k: int)
    requires
        0 <= k < t.len(),
    ensures
        sel_value(gv, t.take(k + 1)) == sel_value(gv, t.take(k)) + match t[k] {
            Some(i) => gv[k][i as int].value as int,
            None => 0,
        },
{
    let p1 = t.take(k + 1);
    assert(p1.drop_last() =~= t.take(k));
    assert(p1.last() == t[k]);
}

/// Deciding more groups can only increase an item's demand.
pub proof fn lemma_demand_take_mono(gv: GroupsView, t: Selection, id: Seq<char>, k: int, m: int)
    requires
        0 <= k <= m <= t.len(),
    ensures
        sel_demand(gv, t.take(k), id) <= sel_demand(gv, t.take(m), id),
    decreases m - k,
{
    if k < m {
        lemma_demand_take_mono(gv, t, id, k, m - 1);
        lemma_demand_take_step(gv, t, id, m - 1);
    }
}

/// The demand of a prefix never exceeds the demand of the whole selection.
pub proof fn lemma_demand_prefix_le(gv: GroupsView, p: Selection, t: Selection, id: Seq<char>)
    requires
        p.is_prefix_of(t),
    ensures
        sel_demand(gv, p, id) <= sel_demand(gv, t, id),
{
    lemma_prefix_take(p, t);
    lemma_demand_take_mono(gv, t, id, p.len() as int, t.len() as int);
    assert(t.take(t.len() as int) =~= t);
}

/// The value of a complete selection is at most the value of a prefix plus
/// the per-group maxima of the groups still undecided after it.
pub proof fn lemma_value_bound_ext(gv: GroupsView, t: Selection, g: int)
    requires
        sel_wf(gv, t),
        t.len() == gv.len(),
        0 <= g <= t.len(),
    ensures
        sel_value(gv, t) <= sel_value(gv, t.take(g)) + max_sum(gv, g),
    decreases t.len() - g,
{
    if g == t.len() {
        assert(t.take(g) =~= t);
    } else {
        lemma_value_take_step(gv, t, g);
        match t[g] {
            Some(i) => {
                assert(t[g] matches Some(ii) && ii == i);
                lemma_elem_value_le_group_max(gv[g], i as int);
            },
            None => {
                lemma_group_max_nonneg(gv[g]);
            },
        }
        lemma_value_bound_ext(gv, t, g + 1);
    }
}

/// Membership in a concatenation is membership in one of the parts.
pub proof fn lemma_add_contains<A>(a: Seq<A>, b: Seq<A>, x: A)
    ensures
        (a + b).contains(x) <==> a.contains(x) || b.contains(x),
{
    if a.contains(x) {
        let i = choose|i: int| 0 <= i < a.len() && a[i] == x;
        assert((a + b)[i] == x);
    }
    if b.contains(x) {
        let i = choose|i: int| 0 <= i < b.len() && b[i] == x;
        assert((a + b)[a.len() + i] == x);
    }
    if (a + b).contains(x) {
        let i = choose|i: int| 0 <= i < (a + b).len() && (a + b)[i] == x;
        if i < a.len() {
            assert(a[i] == x);
        } else {
            assert(b[i - a.len()] == x);
        }
    }
}

/// Filtering a one-element sequence keeps or drops that element.
pub proof fn lemma_filter_singleton<A>(x: A, pred: spec_fn(A) -> bool)
    ensures
        pred(x) ==> seq![x].filter(pred) == seq![x],
        !pred(x) ==> seq![x].filter(pred) == Seq::<A>::empty(),
{
    reveal_with_fuel(Seq::filter, 2);
    let s = seq![x];
    assert(s.drop_last() =~= Seq::<A>::empty());
    assert(s.last() == x);
    if pred(x) {
        assert(s.filter(pred) =~= seq![x]);
    } else {
        assert(s.filter(pred) =~= Seq::<A>::empty());
    }
}

/// Every element of a filtered sequence comes from the sequence.
pub proof fn lemma_filter_subset<A>(s: Seq<A>, pred: spec_fn(A) -> bool, j: int)
    requires
        0 <= j < s.filter(pred).len(),
    ensures
        exists|i: int| 0 <= i < s.len() && s[i] == s.filter(pred)[j],
    decreases s.len(),
{
    reveal(Seq::filter);
    if s.len() > 0 {
        let sub = s.drop_last().filter(pred);
        if j < sub.len() {
            lemma_filter_subset(s.drop_last(), pred, j);
            let i = choose|i: int|
                0 <= i < s.drop_last().len() && s.drop_last()[i] == s.drop_last().filter(pred)[j];
            assert(s[i] == s.filter(pred)[j]);
        } else {
            assert(pred(s.last()));
            assert(s.filter(pred)[j] == s.last());
            assert(s[s.len() - 1] == s.filter(pred)[j]);
        }
    }
}

/// Every element of the selection enumeration of prefix `p` is a complete,
/// well-formed selection extending `p`.
pub proof fn lemma_exts_sound(gv: GroupsView, p: Selection)
    requires
        sel_wf(gv, p),
    ensures
        forall|j: int|
            0 <= j < exts(gv, p).len() ==> sel_complete(gv, #[trigger] exts(gv, p)[j])
                && p.is_prefix_of(exts(gv, p)[j]),
    decreases gv.len() - p.len(), 1int, 0int,
{
    if p.len() >= gv.len() {
        assert(p =~= p.subrange(0, p.len() as int));
        assert(exts(gv, p) == seq![p]);
        assert(exts(gv, p)[0] == p);
    } else {
        let g = p.len() as int;
        let k = gv[g].len() as int;
        lemma_done_sound(gv, p, k);
        let pn = p.push(None);
        assert(sel_wf(gv, pn)) by {
            assert(forall|h: int| 0 <= h < p.len() ==> pn[h] == p[h]);
        }
        lemma_exts_sound(gv, pn);
        lemma_prefix_push(p, None);
        let d = done_branches(gv, p, k);
        assert forall|j: int| 0 <= j < exts(gv, p).len() implies sel_complete(
            gv,
            #[trigger] exts(gv, p)[j],
        ) && p.is_prefix_of(exts(gv, p)[j]) by {
            let e = exts(gv, p)[j];
            if j < d.len() {
                assert(e == d[j]);
            } else {
                assert(e == exts(gv, pn)[j - d.len()]);
                lemma_prefix_trans(p, pn, e);
            }
        }
    }
}

/// Every selection enumerated under the first `i` bids of the next group is
/// complete, extends `p`, and chooses one of those first `i` bids there.
pub proof fn lemma_done_sound(gv: GroupsView, p: Selection, i: int)
    requires
        sel_wf(gv, p),
        p.len() < gv.len(),
        0 <= i <= gv[p.len() as int].len(),
    ensures
        forall|j: int|
            0 <= j < done_branches(gv, p, i).len() ==> {
                let e = #[trigger] done_branches(gv, p, i)[j];
                sel_complete(gv, e) && p.is_prefix_of(e) && (e[p.len() as int] matches Some(bi)
                    && (bi as int) < i)
            },
    decreases gv.len() - p.len(), 0int, i,
{
    if i > 0 {
        lemma_done_sound(gv, p, i - 1);
        let x = Some((i - 1) as usize);
        let pb = p.push(x);
        assert(sel_wf(gv, pb)) by {
            assert(forall|h: int| 0 <= h < p.len() ==> pb[h] == p[h]);
            assert(pb[p.len() as int] == x);
        }
        lemma_exts_sound(gv, pb);
        lemma_prefix_push(p, x);
        let d1 = done_branches(gv, p, i - 1);
        assert forall|j: int| 0 <= j < done_branches(gv, p, i).len() implies {
            let e = #[trigger] done_branches(gv, p, i)[j];
            sel_complete(gv, e) && p.is_prefix_of(e) && (e[p.len() as int] matches Some(bi) && (
            bi as int) < i)
        } by {
            let e = done_branches(gv, p, i)[j];
            if j < d1.len() {
                assert(e == d1[j]);
            } else {
                assert(e == exts(gv, pb)[j - d1.len()]);
                lemma_prefix_trans(p, pb, e);
                lemma_prefix_take(pb, e);
                assert(e[p.len() as int] == e.take(pb.len() as int)[p.len() as int]);
                assert(e[p.len() as int] == x);
            }
        }
    }
}

/// Every complete well-formed selection extending `p` occurs in the
/// enumeration of `p`.
pub proof fn lemma_exts_complete(gv: GroupsView, p: Selection, t: Selection)
    requires
        sel_wf(gv, p),
        sel_complete(gv, t),
        p.is_prefix_of(t),
    ensures
        exts(gv, p).contains(t),
    decreases gv.len() - p.len(), 1int, 0int,
{
    if p.len() >= gv.len() {
        lemma_prefix_same_len(p, t);
        assert(exts(gv, p)[0] == t);
    } else {
        let g = p.len() as int;
        let k = gv[g].len() as int;
        let x = t[g];
        let p2 = p.push(x);
        lemma_push_prefix(p, t, x);
        assert(sel_wf(gv, p2)) by {
            assert(forall|h: int| 0 <= h < p.len() ==> p2[h] == p[h]);
            assert(p2[g] == x);
            assert(0 <= g < t.len());
            assert(t[g] matches Some(i) ==> (i as int) < gv[g].len());
        }
        lemma_exts_complete(gv, p2, t);
        let d = done_branches(gv, p, k);
        match x {
            Some(b) => {
                lemma_done_contains(gv, p, k, b as int, t);
                lemma_add_contains(d, exts(gv, p.push(None)), t);
            },
            None => {
                lemma_add_contains(d, exts(gv, p.push(None)), t);
            },
        }
    }
}

/// Whatever the enumeration of branch `b` of the next group holds is also in
/// the enumeration of the first `i` branches, for `b` below `i`.
pub proof fn lemma_done_contains(gv: GroupsView, p: Selection, i: int, b: int, t: Selection)
    requires
        p.len() < gv.len(),
        0 <= b < i,
        exts(gv, p.push(Some(b as usize))).contains(t),
    ensures
        done_branches(gv, p, i).contains(t),
    decreases i,
{
    let d1 = done_branches(gv, p, i - 1);
    let e = exts(gv, p.push(Some((i - 1) as usize)));
    if b == i - 1 {
        lemma_add_contains(d1, e, t);
    } else {
        lemma_done_contains(gv, p, i - 1, b, t);
        lemma_add_contains(d1, e, t);
    }
}

/// Every value occurring in `s` is at most the largest.
pub proof fn lemma_max_value_upper(gv: GroupsView, s: Seq<Selection>, j: int)
    requires
        0 <= j < s.len(),
    ensures
        sel_value(gv, s[j]) <= max_value_of(gv, s),
    decreases s.len(),
{
    if j < s.len() - 1 {
        lemma_max_value_upper(gv, s.drop_last(), j);
    }
}

/// The largest value of a non-empty `s` occurs in `s`.
pub proof fn lemma_max_value_attained(gv: GroupsView, s: Seq<Selection>)
    requires
        s.len() > 0,
    ensures
        exists|j: int| 0 <= j < s.len() && sel_value(gv, #[trigger] s[j]) == max_value_of(gv, s),
    decreases s.len(),
{
    let m = max_value_of(gv, s.drop_last());
    if sel_value(gv, s.last()) > m {
        assert(sel_value(gv, s[s.len() - 1]) == max_value_of(gv, s));
    } else if s.len() == 1 {
        lemma_sel_value_nonneg(gv, s.last());
        assert(sel_value(gv, s[s.len() - 1]) == max_value_of(gv, s));
    } else {
        lemma_max_value_attained(gv, s.drop_last());
        let j = choose|j: int|
            0 <= j < s.drop_last().len() && sel_value(gv, #[trigger] s.drop_last()[j]) == m;
        assert(sel_value(gv, s[j]) == max_value_of(gv, s));
    }
}

/// The largest value of a selection list is never negative.
pub proof fn lemma_max_value_nonneg(gv: GroupsView, s: Seq<Selection>)
    ensures
        max_value_of(gv, s) >= 0,
    decreases s.len(),
{
    if s.len() > 0 {
        lemma_max_value_nonneg(gv, s.drop_last());
    }
}

/// The all-`None` selection is complete, chooses nothing, demands nothing
/// and is worth nothing.
pub proof fn lemma_none_sel(gv: GroupsView, n: int)
    requires
        0 <= n <= gv.len(),
    ensures
        none_sel(n).len() == n,
        sel_wf(gv, none_sel(n)),
        sel_value(gv, none_sel(n)) == 0,
        forall|id: Seq<char>| #[trigger] sel_demand(gv, none_sel(n), id) == 0,
    decreases n,
{
    if n > 0 {
        lemma_none_sel(gv, n - 1);
        assert(none_sel(n).drop_last() =~= none_sel(n - 1));
        assert(none_sel(n).last() == None::<usize>);
        assert forall|id: Seq<char>| #[trigger] sel_demand(gv, none_sel(n), id) == 0 by {
            assert(sel_demand(gv, none_sel(n - 1), id) == 0);
        }
    }
}

/// No feasible complete selection is worth more than the optimum.
pub proof fn lemma_opt_upper(sv: StockView, gv: GroupsView, t: Selection)
    requires
        sel_complete(gv, t),
        feasible(sv, gv, t),
    ensures
        sel_value(gv, t) <= opt_value(sv, gv),
{
    lemma_empty_prefix(t);
    lemma_exts_complete(gv, Seq::<Option<usize>>::empty(), t);
    let s = all_sels(gv);
    let i = choose|i: int| 0 <= i < s.len() && s[i] == t;
    assert(feas_pred(sv, gv)(s[i]));
    s.lemma_filter_contains(feas_pred(sv, gv), i);
    let f = s.filter(feas_pred(sv, gv));
    let j = choose|j: int| 0 <= j < f.len() && f[j] == t;
    lemma_max_value_upper(gv, f, j);
}

/// The optimum is attained by a feasible complete selection.
pub proof fn lemma_opt_attained(sv: StockView, gv: GroupsView)
    ensures
        exists|t: Selection|
            #[trigger] sel_complete(gv, t) && feasible(sv, gv, t) && sel_value(gv, t) == opt_value(
                sv,
                gv,
            ),
{
    let n = gv.len() as int;
    let ns = none_sel(n);
    lemma_none_sel(gv, n);
    assert(feasible(sv, gv, ns));
    lemma_empty_prefix(ns);
    lemma_exts_complete(gv, Seq::<Option<usize>>::empty(), ns);
    let s = all_sels(gv);
    let i = choose|i: int| 0 <= i < s.len() && s[i] == ns;
    assert(feas_pred(sv, gv)(s[i]));
    s.lemma_filter_contains(feas_pred(sv, gv), i);
    let f = s.filter(feas_pred(sv, gv));
    assert(f.len() > 0) by {
        assert(f.contains(ns));
        let jj = choose|jj: int| 0 <= jj < f.len() && f[jj] == ns;
    }
    lemma_max_value_attained(gv, f);
    let j = choose|j: int|
        0 <= j < f.len() && sel_value(gv, #[trigger] f[j]) == max_value_of(gv, f);
    s.lemma_filter_pred(feas_pred(sv, gv), j);
    lemma_filter_subset(s, feas_pred(sv, gv), j);
    let i2 = choose|i2: int| 0 <= i2 < s.len() && s[i2] == f[j];
    lemma_exts_sound(gv, Seq::<Option<usize>>::empty());
    assert(sel_complete(gv, s[i2]));
    assert(sel_complete(gv, f[j]) && feasible(sv, gv, f[j]) && sel_value(gv, f[j]) == opt_value(
        sv,
        gv,
    ));
}

/// The optimum is never negative: choosing nothing is always feasible.
pub proof fn lemma_opt_nonneg(sv: StockView, gv: GroupsView)
    ensures
        opt_value(sv, gv) >= 0,
{
    lemma_max_value_nonneg(gv, all_sels(gv).filter(feas_pred(sv, gv)));
}

/// A kept element keeps its relative place when a sequence is filtered: it is
/// found at the index given by counting the kept elements before it.
pub proof fn lemma_filter_take_index<A>(s: Seq<A>, pred: spec_fn(A) -> bool, i: int)
    requires
        0 <= i < s.len(),
        pred(s[i]),
    ensures
        s.take(i).filter(pred).len() < s.filter(pred).len(),
        s.filter(pred)[s.take(i).filter(pred).len() as int] == s[i],
{
    let a = s.take(i);
    let m = seq![s[i]];
    let b = s.skip(i + 1);
    assert(s =~= a + m + b);
    Seq::<A>::filter_distributes_over_add(a + m, b, pred);
    Seq::<A>::filter_distributes_over_add(a, m, pred);
    lemma_filter_singleton(s[i], pred);
    assert(s.filter(pred) == a.filter(pred) + m + b.filter(pred));
    assert((a.filter(pred) + m)[a.filter(pred).len() as int] == s[i]);
    assert(s.filter(pred)[a.filter(pred).len() as int] == s[i]);
}

/// Filtering a group can only lower its value sum.
pub proof fn lemma_filter_value_total_le(grp: Seq<BidView>, pred: spec_fn(BidView) -> bool)
    ensures
        group_value_total(grp.filter(pred)) <= group_value_total(grp),
        group_value_total(grp.filter(pred)) >= 0,
    decreases grp.len(),
{
    reveal(Seq::filter);
    lemma_group_value_total_nonneg(grp.filter(pred));
    if grp.len() > 0 {
        lemma_filter_value_total_le(grp.drop_last(), pred);
        if pred(grp.last()) {
            let f = grp.drop_last().filter(pred).push(grp.last());
            assert(f.drop_last() =~= grp.drop_last().filter(pred));
            assert(f.last() == grp.last());
        } else {
            lemma_group_value_total_nonneg(grp.drop_last());
        }
    }
}

/// Filtering a group can only lower its demand sum.
pub proof fn lemma_filter_demand_total_le(
    grp: Seq<BidView>,
    pred: spec_fn(BidView) -> bool,
    id: Seq<char>,
)
    ensures
        group_demand_total(grp.filter(pred), id) <= group_demand_total(grp, id),
        group_demand_total(grp.filter(pred), id) >= 0,
    decreases grp.len(),
{
    reveal(Seq::filter);
    lemma_group_demand_total_nonneg(grp.filter(pred), id);
    if grp.len() > 0 {
        lemma_filter_demand_total_le(grp.drop_last(), pred, id);
        if pred(grp.last()) {
            let f = grp.drop_last().filter(pred).push(grp.last());
            assert(f.drop_last() =~= grp.drop_last().filter(pred));
            assert(f.last() == grp.last());
        }
    }
}

/// The partial value sums of the reduced groups stay below the originals.
pub proof fn lemma_remove_value_upto_le(gv: GroupsView, nm: Seq<char>, k: int)
    requires
        k <= gv.len(),
    ensures
        total_value_upto(remove_bidder(gv, nm), k) <= total_value_upto(gv, k),
    decreases k,
{
    if k > 0 {
        lemma_remove_value_upto_le(gv, nm, k - 1);
        assert(remove_bidder(gv, nm)[k - 1] == gv[k - 1].filter(keep_pred(nm)));
        lemma_filter_value_total_le(gv[k - 1], keep_pred(nm));
    }
}

/// The partial demand sums of the reduced groups stay below the originals.
pub proof fn lemma_remove_demand_upto_le(gv: GroupsView, nm: Seq<char>, k: int, id: Seq<char>)
    requires
        k <= gv.len(),
    ensures
        total_demand_upto(remove_bidder(gv, nm), k, id) <= total_demand_upto(gv, k, id),
    decreases k,
{
    if k > 0 {
        lemma_remove_demand_upto_le(gv, nm, k - 1, id);
        assert(remove_bidder(gv, nm)[k - 1] == gv[k - 1].filter(keep_pred(nm)));
        lemma_filter_demand_total_le(gv[k - 1], keep_pred(nm), id);
    }
}

/// Removing a bidder keeps the arithmetic of the engine within machine
/// limits.
pub proof fn lemma_remove_fits(sv: StockView, gv: GroupsView, nm: Seq<char>)
    requires
        fits(sv, gv),
    ensures
        fits(sv, remove_bidder(gv, nm)),
{
    let rgv = remove_bidder(gv, nm);
    assert(rgv.len() == gv.len());
    lemma_remove_value_upto_le(gv, nm, gv.len() as int);
    assert forall|j: int| 0 <= j < sv.len() implies total_demand(rgv, #[trigger] sv[j].0)
        <= u64::MAX by {
        lemma_remove_demand_upto_le(gv, nm, gv.len() as int, sv[j].0);
    }
}

/// A selection's value splits into the chosen bids of one bidder and those of
/// all the others.
pub proof fn lemma_value_split(gv: GroupsView, sel: Selection, nm: Seq<char>)
    ensures
        sel_value(gv, sel) == others_value(gv, sel, nm) + own_value(gv, sel, nm),
    decreases sel.len(),
{
    if sel.len() > 0 {
        lemma_value_split(gv, sel.drop_last(), nm);
    }
}

/// The value contributed by the other bidders is never negative.
pub proof fn lemma_others_nonneg(gv: GroupsView, sel: Selection, nm: Seq<char>)
    ensures
        others_value(gv, sel, nm) >= 0,
    decreases sel.len(),
{
    if sel.len() > 0 {
        lemma_others_nonneg(gv, sel.drop_last(), nm);
    }
}

/// The value contributed by one bidder's own bids is never negative.
pub proof fn lemma_own_nonneg(gv: GroupsView, sel: Selection, nm: Seq<char>)
    ensures
        own_value(gv, sel, nm) >= 0,
    decreases sel.len(),
{
    if sel.len() > 0 {
        lemma_own_nonneg(gv, sel.drop_last(), nm);
    }
}

/// Carrying a selection over to the groups without bidder `nm` keeps it
/// well-formed, demands no more of any item, and is worth exactly what the
/// other bidders contributed.
pub proof fn lemma_reduced_sel_props(gv: GroupsView, sel: Selection, nm: Seq<char>)
    requires
        sel_wf(gv, sel),
    ensures
        reduced_sel(gv, sel, nm).len() == sel.len(),
        sel_wf(remove_bidder(gv, nm), reduced_sel(gv, sel, nm)),
        forall|id: Seq<char>|
            #[trigger] sel_demand(remove_bidder(gv, nm), reduced_sel(gv, sel, nm), id)
                <= sel_demand(gv, sel, id),
        sel_value(remove_bidder(gv, nm), reduced_sel(gv, sel, nm)) == others_value(gv, sel, nm),
    decreases sel.len(),
{
    let rgv = remove_bidder(gv, nm);
    let rs = reduced_sel(gv, sel, nm);
    assert(rgv.len() == gv.len());
    if sel.len() == 0 {
        assert(rs =~= Seq::<Option<usize>>::empty());
    } else {
        let dl = sel.drop_last();
        assert(sel_wf(gv, dl));
        lemma_reduced_sel_props(gv, dl, nm);
        let rdl = reduced_sel(gv, dl, nm);
        assert(rs.drop_last() =~= rdl);
        let k = sel.len() - 1;
        assert(sel[k] == sel.last());
        match sel.last() {
            Some(i) => {
                if gv[k][i as int].name == nm {
                    assert(rs.last() == None::<usize>);
                    assert forall|id: Seq<char>| #[trigger] sel_demand(rgv, rs, id) <= sel_demand(
                        gv,
                        sel,
                        id,
                    ) by {
                        assert(sel_demand(rgv, rdl, id) <= sel_demand(gv, dl, id));
                    }
                } else {
                    let j = gv[k].take(i as int).filter(keep_pred(nm)).len() as int;
                    assert(keep_pred(nm)(gv[k][i as int]));
                    lemma_filter_take_index(gv[k], keep_pred(nm), i as int);
                    assert(rgv[k] == gv[k].filter(keep_pred(nm)));
                    assert(rgv[k][j] == gv[k][i as int]);
                    assert(rs.last() == Some(j as usize));
                    assert(sel_wf(rgv, rs)) by {
                        assert(forall|g: int| 0 <= g < rdl.len() ==> rs[g] == rdl[g]);
                    }
                    assert forall|id: Seq<char>| #[trigger] sel_demand(rgv, rs, id) <= sel_demand(
                        gv,
                        sel,
                        id,
                    ) by {
                        assert(sel_demand(rgv, rdl, id) <= sel_demand(gv, dl, id));
                        assert(bid_demand(rgv[k][j].items, id) == bid_demand(
                            gv[k][i as int].items,
                            id,
                        ));
                    }
                    assert(sel_value(rgv, rs) == others_value(gv, sel, nm));
                }
            },
            None => {
                assert(rs.last() == None::<usize>);
                assert forall|id: Seq<char>| #[trigger] sel_demand(rgv, rs, id) <= sel_demand(
                    gv,
                    sel,
                    id,
                ) by {
                    assert(sel_demand(rgv, rdl, id) <= sel_demand(gv, dl, id));
                }
            },
        }
        assert(sel_wf(rgv, rs)) by {
            assert(forall|g: int| 0 <= g < rdl.len() ==> rs[g] == rdl[g]);
        }
    }
}

/// What the other bidders achieve in a feasible outcome can also be achieved
/// without the removed bidder: the removed problem's optimum covers it.
pub proof fn lemma_others_le_reduced_opt(
    sv: StockView,
    gv: GroupsView,
    sel: Selection,
    nm: Seq<char>,
)
    requires
        sel_complete(gv, sel),
        feasible(sv, gv, sel),
    ensures
        others_value(gv, sel, nm) <= opt_value(sv, remove_bidder(gv, nm)),
{
    let rgv = remove_bidder(gv, nm);
    let rs = reduced_sel(gv, sel, nm);
    lemma_reduced_sel_props(gv, sel, nm);
    assert(feasible(sv, rgv, rs)) by {
        assert forall|j: int| 0 <= j < sv.len() implies sel_demand(rgv, rs, #[trigger] sv[j].0)
            <= sv[j].1 by {
            assert(sel_demand(rgv, rs, sv[j].0) <= sel_demand(gv, sel, sv[j].0));
        }
    }
    lemma_opt_upper(sv, rgv, rs);
}

/// Carrying a selection of the reduced groups back to the full groups keeps
/// it well-formed with the same demands and the same value.
pub proof fn lemma_unremoved_sel_props(gv: GroupsView, nm: Seq<char>, rs: Selection)
    requires
        groups_bounded(gv),
        sel_wf(remove_bidder(gv, nm), rs),
    ensures
        unremoved_sel(gv, nm, rs).len() == rs.len(),
        sel_wf(gv, unremoved_sel(gv, nm, rs)),
        forall|id: Seq<char>|
            #[trigger] sel_demand(gv, unremoved_sel(gv, nm, rs), id) == sel_demand(
                remove_bidder(gv, nm),
                rs,
                id,
            ),
        sel_value(gv, unremoved_sel(gv, nm, rs)) == sel_value(remove_bidder(gv, nm), rs),
    decreases rs.len(),
{
    let rgv = remove_bidder(gv, nm);
    let os = unremoved_sel(gv, nm, rs);
    assert(rgv.len() == gv.len());
    if rs.len() == 0 {
        assert(os =~= Seq::<Option<usize>>::empty());
    } else {
        let dl = rs.drop_last();
        assert(sel_wf(rgv, dl));
        lemma_unremoved_sel_props(gv, nm, dl);
        let odl = unremoved_sel(gv, nm, dl);
        assert(os.drop_last() =~= odl);
        let k = rs.len() - 1;
        assert(rs[k] == rs.last());
        match rs.last() {
            Some(j) => {
                assert((j as int) < rgv[k].len());
                assert(rgv[k] == gv[k].filter(keep_pred(nm)));
                lemma_filter_subset(gv[k], keep_pred(nm), j as int);
                let iw = choose|i: int|
                    0 <= i < gv[k].len() && gv[k][i] == gv[k].filter(keep_pred(nm))[j as int];
                assert(gv[k][iw] == remove_bidder(gv, nm)[k][j as int]);
                let i = choose|i: int|
                    0 <= i < gv[k].len() && gv[k][i] == remove_bidder(gv, nm)[k][j as int];
                assert(0 <= i < gv[k].len() && gv[k][i] == remove_bidder(gv, nm)[k][j as int]);
                assert(gv[k].len() <= usize::MAX);
                assert(os.last() == Some(i as usize));
                assert((i as usize) as int == i);
                assert(gv[k][i] == rgv[k][j as int]);
                assert(sel_wf(gv, os)) by {
                    assert(forall|g: int| 0 <= g < odl.len() ==> os[g] == odl[g]);
                }
                assert forall|id: Seq<char>| #[trigger] sel_demand(gv, os, id) == sel_demand(
                    rgv,
                    rs,
                    id,
                ) by {
                    assert(sel_demand(gv, odl, id) == sel_demand(rgv, dl, id));
                    assert(bid_demand(gv[k][i].items, id) == bid_demand(
                        rgv[k][j as int].items,
                        id,
                    ));
                }
                assert(sel_value(gv, os) == sel_value(rgv, rs));
            },
            None => {
                assert(os.last() == None::<usize>);
                assert(sel_wf(gv, os)) by {
                    assert(forall|g: int| 0 <= g < odl.len() ==> os[g] == odl[g]);
                }
                assert forall|id: Seq<char>| #[trigger] sel_demand(gv, os, id) == sel_demand(
                    rgv,
                    rs,
                    id,
                ) by {
                    assert(sel_demand(gv, odl, id) == sel_demand(rgv, dl, id));
                }
            },
        }
    }
}

/// Removing a bidder never raises the achievable optimum.
pub proof fn lemma_reduced_opt_le(sv: StockView, gv: GroupsView, nm: Seq<char>)
    requires
        groups_bounded(gv),
    ensures
        opt_value(sv, remove_bidder(gv, nm)) <= opt_value(sv, gv),
{
    let rgv = remove_bidder(gv, nm);
    lemma_opt_attained(sv, rgv);
    let rs = choose|t: Selection|
        #[trigger] sel_complete(rgv, t) && feasible(sv, rgv, t) && sel_value(rgv, t) == opt_value(
            sv,
            rgv,
        );
    lemma_unremoved_sel_props(gv, nm, rs);
    let os = unremoved_sel(gv, nm, rs);
    assert(rgv.len() == gv.len());
    assert(sel_complete(gv, os));
    assert(feasible(sv, gv, os)) by {
        assert forall|j: int| 0 <= j < sv.len() implies sel_demand(gv, os, #[trigger] sv[j].0)
            <= sv[j].1 by {
            assert(sel_demand(gv, os, sv[j].0) == sel_demand(rgv, rs, sv[j].0));
        }
    }
    lemma_opt_upper(sv, gv, os);
}

/// The payment of a winning bidder is never negative.
pub proof fn lemma_payment_nonneg(sv: StockView, gv: GroupsView, sel: Selection, nm: Seq<char>)
    requires
        sel_complete(gv, sel),
        feasible(sv, gv, sel),
    ensures
        payment_of(sv, gv, sel, nm) >= 0,
{
    lemma_others_le_reduced_opt(sv, gv, sel, nm);
}

/// The payment of a winning bidder never exceeds what that bidder's own bids
/// contribute to the winning outcome.
pub proof fn lemma_payment_le_own(sv: StockView, gv: GroupsView, sel: Selection, nm: Seq<char>)
    requires
        groups_bounded(gv),
        sel_complete(gv, sel),
        feasible(sv, gv, sel),
        sel_value(gv, sel) == opt_value(sv, gv),
    ensures
        payment_of(sv, gv, sel, nm) <= own_value(gv, sel, nm),
{
    lemma_reduced_opt_le(sv, gv, nm);
    lemma_value_split(gv, sel, nm);
}

/// Unfolding the chosen bids of one more decided group.
pub proof fn lemma_bids_take_step(gv: GroupsView, t: Selection, k: int)
    requires
        0 <= k < t.len(),
    ensures
        bids_of(gv, t.take(k + 1)) == bids_of(gv, t.take(k)) + match t[k] {
            Some(i) => seq![gv[k][i as int]],
            None => Seq::<BidView>::empty(),
        },
{
    let p1 = t.take(k + 1);
    assert(p1.drop_last() =~= t.take(k));
    assert(p1.last() == t[k]);
}

/// The chosen bids of the other bidders sum to their contributed value.
pub proof fn lemma_list_others_bids(gv: GroupsView, sel: Selection, nm: Seq<char>)
    ensures
        list_others(bids_of(gv, sel), nm) == others_value(gv, sel, nm),
    decreases sel.len(),
{
    if sel.len() > 0 {
        lemma_list_others_bids(gv, sel.drop_last(), nm);
        let pre = bids_of(gv, sel.drop_last());
        match sel.last() {
            Some(i) => {
                let v = gv[sel.len() - 1][i as int];
                assert(bids_of(gv, sel) == pre + seq![v]);
                assert(pre + seq![v] =~= pre.push(v));
                assert(pre.push(v).drop_last() =~= pre);
                assert(pre.push(v).last() == v);
            },
            None => {
                assert(bids_of(gv, sel) == pre + Seq::<BidView>::empty());
                assert(pre + Seq::<BidView>::empty() =~= pre);
            },
        }
    }
}

/// Unfolding the other bidders' sum over one more listed bid.
pub proof fn lemma_list_others_take_step(bids: Seq<BidView>, nm: Seq<char>, k: int)
    requires
        0 <= k < bids.len(),
    ensures
        list_others(bids.take(k + 1), nm) == list_others(bids.take(k), nm) + if bids[k].name
            == nm {
            0
        } else {
            bids[k].value as int
        },
{
    let p1 = bids.take(k + 1);
    assert(p1.drop_last() =~= bids.take(k));
    assert(p1.last() == bids[k]);
}

/// Counting more listed bids can only raise the other bidders' sum.
pub proof fn lemma_list_others_take_mono(bids: Seq<BidView>, nm: Seq<char>, k: int, m: int)
    requires
        0 <= k <= m <= bids.len(),
    ensures
        list_others(bids.take(k), nm) <= list_others(bids.take(m), nm),
    decreases m - k,
{
    if k < m {
        lemma_list_others_take_mono(bids, nm, k, m - 1);
        lemma_list_others_take_step(bids, nm, m - 1);
    }
}

} // verus!
