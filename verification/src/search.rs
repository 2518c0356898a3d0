//! The winner-determination engine: a recursive branch-and-bound search over
//! the exclusive bid groups, with incremental feasibility pruning and a
//! quantity-ignoring value bound.

use vstd::prelude::*;

use crate::lemmas::{
    lemma_demand_prefix_le, lemma_empty_prefix, lemma_exts_complete, lemma_exts_sound,
    lemma_filter_singleton, lemma_filter_subset, lemma_done_sound, lemma_max_sum_nonneg,
    lemma_opt_attained, lemma_opt_nonneg, lemma_opt_upper, lemma_prefix_push,
    lemma_prefix_same_len, lemma_prefix_take, lemma_prefix_trans, lemma_push_prefix,
    lemma_sel_demand_le_upto, lemma_sel_demand_nonneg, lemma_sel_value_le_upto,
    lemma_total_demand_upto_mono, lemma_total_value_upto_mono, lemma_upto_plus_max_sum,
    lemma_value_bound_ext,
};
use crate::model::{
    bid_demand, done_branches, exts, feasible, fits, group_max, group_view, groups_view, max_sum,
    opt_value, qual, sel_complete, sel_demand, sel_value, sel_wf, sels_view, stock_view,
    tied_pred, tied_sels, total_demand, total_value, Selection,
};
use crate::types::SimpleBid;

verus! {

/// The quantity of the item named `id` that `bid` demands: the quantity of
/// the first matching entry of its demand list, or zero.
#[verifier::loop_isolation(false)]
fn bid_demand_for(bid: &SimpleBid, id: &String) -> (q: u64)
    ensures
        q == bid_demand(bid@.items, id@),
{
    let items = &bid.items;
    proof {
        assert(bid@.items.skip(0) =~= bid@.items);
    }
    let mut i: usize = 0;
    while i < items.len()
        invariant
            i <= items.len(),
            bid_demand(bid@.items, id@) == bid_demand(bid@.items.skip(i as int), id@),
        decreases items.len() - i,
    {
        proof {
            assert(bid@.items.skip(i as int)[0] == bid@.items[i as int]);
        }
        if items[i].0 == *id {
            return items[i].1;
        }
        proof {
            assert(bid@.items.skip(i as int).drop_first() =~= bid@.items.skip(i as int + 1));
        }
        i += 1;
    }
    proof {
        assert(bid@.items.skip(i as int) =~= Seq::<(Seq<char>, u64)>::empty());
    }
    0
}

/// The highest bid value inside one group, zero for an empty group.
fn group_max_exec(grp: &Vec<SimpleBid>) -> (m: u64)
    ensures
        m as int == group_max(group_view(grp@)),
{
    let mut m: u64 = 0;
    let mut i: usize = 0;
    while i < grp.len()
        invariant
            i <= grp.len(),
            m as int == group_max(group_view(grp@).take(i as int)),
        decreases grp.len() - i,
    {
        proof {
            let gvw = group_view(grp@);
            assert(gvw.take(i as int + 1).drop_last() =~= gvw.take(i as int));
            assert(gvw.take(i as int + 1).last() == gvw[i as int]);
        }
        if grp[i].value > m {
            m = grp[i].value;
        }
        i += 1;
    }
    proof {
        assert(group_view(grp@).take(grp@.len() as int) =~= group_view(grp@));
    }
    m
}

/// An independent copy of a partial selection.
fn clone_sel(p: &Vec<Option<usize>>) -> (r: Vec<Option<usize>>)
    ensures
        r@ == p@,
{
    let mut r: Vec<Option<usize>> = Vec::new();
    let mut i: usize = 0;
    while i < p.len()
        invariant
            i <= p.len(),
            r@ == p@.take(i as int),
        decreases p.len() - i,
    {
        proof {
            assert(p@.take(i as int + 1) =~= p@.take(i as int).push(p@[i as int]));
        }
        r.push(p[i]);
        i += 1;
    }
    proof {
        assert(p@.take(p@.len() as int) =~= p@);
    }
    r
}

/// One step of the branch-and-bound search, deciding the groups from
/// `p.len()` on.
///
/// `p` is the partial selection over the already decided groups, `committed`
/// its per-stock-item demand, `selected_value` its value, and `gmax` the
/// per-group highest bid values used for bound pruning. `highest_value` and
/// `highest_value_bid_sets` accumulate the best value seen so far and every
/// feasible complete selection attaining it, in search order: a strictly
/// better leaf replaces the collection, a tying leaf is appended.
#[verifier::rlimit(50)]
#[verifier::loop_isolation(false)]
fn find_highest_value_helper(
    item_stock: &Vec<(String, u64)>,
    groups: &Vec<Vec<SimpleBid>>,
    gmax: &Vec<u64>,
    p: &Vec<Option<usize>>,
    committed: &Vec<u64>,
    selected_value: u64,
    highest_value_bid_sets: &mut Vec<Vec<Option<usize>>>,
    highest_value: &mut u64,
)
    requires
        fits(stock_view(item_stock@), groups_view(groups@)),
        gmax@.len() == groups@.len(),
        forall|h: int|
            0 <= h < groups@.len() ==> gmax@[h] as int == group_max(groups_view(groups@)[h]),
        sel_wf(groups_view(groups@), p@),
        committed@.len() == item_stock@.len(),
        forall|j: int|
            0 <= j < item_stock@.len() ==> #[trigger] committed@[j] as int == sel_demand(
                groups_view(groups@),
                p@,
                stock_view(item_stock@)[j].0,
            ),
        selected_value as int == sel_value(groups_view(groups@), p@),
    ensures
        *old(highest_value) <= *final(highest_value),
        forall|t: Selection|
            sel_complete(groups_view(groups@), t) && p@.is_prefix_of(t) && feasible(
                stock_view(item_stock@),
                groups_view(groups@),
                t,
            ) ==> #[trigger] sel_value(groups_view(groups@), t) <= *final(highest_value) as int,
        *final(highest_value) == *old(highest_value) || (exists|t: Selection|
            #[trigger] sel_complete(groups_view(groups@), t) && p@.is_prefix_of(t) && feasible(
                stock_view(item_stock@),
                groups_view(groups@),
                t,
            ) && sel_value(groups_view(groups@), t) == *final(highest_value) as int),
        sels_view(final(highest_value_bid_sets)@) == (if *final(highest_value) > *old(
            highest_value,
        ) {
            Seq::<Selection>::empty()
        } else {
            sels_view(old(highest_value_bid_sets)@)
        }) + qual(
            stock_view(item_stock@),
            groups_view(groups@),
            p@,
            *final(highest_value) as int,
        ),
    decreases groups@.len() - p@.len(),
{
    let ghost sv = stock_view(item_stock@);
    let ghost gv = groups_view(groups@);
    proof {
        assert(sv.len() == item_stock@.len());
        assert(forall|q: int|
            0 <= q < sv.len() ==> #[trigger] sv[q] == crate::types::item_view(item_stock@[q]));
        assert(gv.len() == groups@.len());
        assert(forall|hh: int|
            0 <= hh < gv.len() ==> #[trigger] gv[hh] == group_view(groups@[hh]@));
    }

    // check that the demand committed so far does not exceed the stock
    let mut j: usize = 0;
    while j < committed.len()
        invariant
            j <= committed.len(),
            committed@.len() == item_stock@.len(),
            forall|jj: int| 0 <= jj < j ==> #[trigger] committed@[jj] <= item_stock@[jj].1,
        decreases committed.len() - j,
    {
        if committed[j] > item_stock[j].1 {
            // this branch is already infeasible: no completion can recover
            proof {
                let m = *highest_value as int;
                let pred = tied_pred(sv, gv, m);
                assert forall|t: Selection|
                    sel_complete(gv, t) && p@.is_prefix_of(t) && feasible(sv, gv, t) implies false by {
                    lemma_demand_prefix_le(gv, p@, t, sv[j as int].0);
                    assert(sel_demand(gv, t, sv[j as int].0) <= sv[j as int].1);
                    assert(sv[j as int].1 == item_stock@[j as int].1);
                }
                lemma_exts_sound(gv, p@);
                assert forall|q: int| 0 <= q < exts(gv, p@).len() implies !pred(
                    #[trigger] exts(gv, p@)[q],
                ) by {
                    let e = exts(gv, p@)[q];
                    if feasible(sv, gv, e) {
                        assert(false);
                    }
                }
                exts(gv, p@).lemma_all_neg_filter_empty(pred);
                assert(qual(sv, gv, p@, m) =~= Seq::<Selection>::empty());
                assert(sels_view(highest_value_bid_sets@) =~= sels_view(highest_value_bid_sets@)
                    + qual(sv, gv, p@, m));
            }
            return ;
        }
        j += 1;
    }
    proof {
        assert forall|jj: int| 0 <= jj < sv.len() implies sel_demand(gv, p@, #[trigger] sv[jj].0)
            <= sv[jj].1 by {
            assert(committed@[jj] <= item_stock@[jj].1);
        }
    }

    let g = p.len();
    if g == groups.len() {
        // every group is decided: compare this leaf against the best so far
        proof {
            assert(gv.len() == groups@.len());
            assert(exts(gv, p@) == seq![p@]);
            assert(feasible(sv, gv, p@));
            assert(p@ =~= p@.subrange(0, p@.len() as int));
            assert(p@.is_prefix_of(p@));
            assert(sel_complete(gv, p@));
        }
        if selected_value > *highest_value {
            *highest_value = selected_value;
            let mut nv: Vec<Vec<Option<usize>>> = Vec::new();
            nv.push(clone_sel(p));
            *highest_value_bid_sets = nv;
            proof {
                let m = selected_value as int;
                let pred = tied_pred(sv, gv, m);
                lemma_filter_singleton(p@, pred);
                assert(pred(p@));
                assert(sel_complete(gv, p@) && p@.is_prefix_of(p@) && feasible(sv, gv, p@)
                    && sel_value(gv, p@) == m);
                assert(sels_view(highest_value_bid_sets@) =~= Seq::<Selection>::empty() + qual(
                    sv,
                    gv,
                    p@,
                    m,
                ));
                assert forall|t: Selection|
                    sel_complete(gv, t) && p@.is_prefix_of(t) && feasible(sv, gv, t) implies #[trigger] sel_value(
                    gv,
                    t,
                ) <= m by {
                    lemma_prefix_same_len(p@, t);
                }
            }
        } else if selected_value == *highest_value {
            let c = clone_sel(p);
            highest_value_bid_sets.push(c);
            proof {
                let m = *highest_value as int;
                let pred = tied_pred(sv, gv, m);
                lemma_filter_singleton(p@, pred);
                assert(pred(p@));
                assert(sels_view(highest_value_bid_sets@) =~= sels_view(
                    old(highest_value_bid_sets)@,
                ) + qual(sv, gv, p@, m));
                assert forall|t: Selection|
                    sel_complete(gv, t) && p@.is_prefix_of(t) && feasible(sv, gv, t) implies #[trigger] sel_value(
                    gv,
                    t,
                ) <= m by {
                    lemma_prefix_same_len(p@, t);
                }
            }
        } else {
            proof {
                let m = *highest_value as int;
                let pred = tied_pred(sv, gv, m);
                lemma_filter_singleton(p@, pred);
                assert(!pred(p@));
                assert(sels_view(highest_value_bid_sets@) =~= sels_view(highest_value_bid_sets@)
                    + qual(sv, gv, p@, m));
                assert forall|t: Selection|
                    sel_complete(gv, t) && p@.is_prefix_of(t) && feasible(sv, gv, t) implies #[trigger] sel_value(
                    gv,
                    t,
                ) <= m by {
                    lemma_prefix_same_len(p@, t);
                }
            }
        }
        return ;
    }

    // upper bound: the running value plus each undecided group's highest bid
    proof {
        lemma_sel_value_le_upto(gv, p@);
        lemma_upto_plus_max_sum(gv, g as int);
        crate::lemmas::lemma_total_value_upto_nonneg(gv, g as int);
        crate::lemmas::lemma_sel_value_nonneg(gv, p@);
    }
    let mut mrv: u64 = 0;
    let mut h: usize = g;
    while h < groups.len()
        invariant
            g <= h <= groups@.len(),
            gv == groups_view(groups@),
            mrv as int + max_sum(gv, h as int) == max_sum(gv, g as int),
            max_sum(gv, g as int) <= total_value(gv),
            total_value(gv) <= u64::MAX,
            gmax@.len() == groups@.len(),
            forall|hh: int| 0 <= hh < groups@.len() ==> gmax@[hh] as int == group_max(gv[hh]),
        decreases groups@.len() - h,
    {
        proof {
            lemma_max_sum_nonneg(gv, h as int + 1);
            crate::lemmas::lemma_group_max_nonneg(gv[h as int]);
        }
        mrv = mrv + gmax[h];
        h += 1;
    }
    proof {
        assert(max_sum(gv, groups@.len() as int) == 0);
        assert(mrv as int == max_sum(gv, g as int));
    }
    let possible_value = selected_value + mrv;
    if possible_value < *highest_value {
        // no completion can reach the best already found, ties included
        proof {
            let m = *highest_value as int;
            let pred = tied_pred(sv, gv, m);
            assert forall|t: Selection|
                sel_complete(gv, t) && p@.is_prefix_of(t) implies #[trigger] sel_value(gv, t)
                < m by {
                lemma_prefix_take(p@, t);
                lemma_value_bound_ext(gv, t, g as int);
            }
            lemma_exts_sound(gv, p@);
            assert forall|q: int| 0 <= q < exts(gv, p@).len() implies !pred(
                #[trigger] exts(gv, p@)[q],
            ) by {
                let e = exts(gv, p@)[q];
                assert(sel_value(gv, e) < m);
            }
            exts(gv, p@).lemma_all_neg_filter_empty(pred);
            assert(qual(sv, gv, p@, m) =~= Seq::<Selection>::empty());
            assert(sels_view(highest_value_bid_sets@) =~= sels_view(highest_value_bid_sets@)
                + qual(sv, gv, p@, m));
        }
        return ;
    }

    // branch over each bid of the next group, then over taking none of them
    let grp_len = groups[g].len();
    proof {
        assert(gv[g as int] == group_view(groups@[g as int]@));
        assert(gv[g as int].len() == grp_len);
    }
    let mut b: usize = 0;
    while b < grp_len
        invariant
            b <= grp_len,
            sv == stock_view(item_stock@),
            gv == groups_view(groups@),
            g == p@.len(),
            g < groups@.len(),
            grp_len == gv[g as int].len(),
            fits(sv, gv),
            gmax@.len() == groups@.len(),
            forall|hh: int| 0 <= hh < groups@.len() ==> gmax@[hh] as int == group_max(gv[hh]),
            sel_wf(gv, p@),
            committed@.len() == item_stock@.len(),
            forall|jj: int|
                0 <= jj < item_stock@.len() ==> #[trigger] committed@[jj] as int == sel_demand(
                    gv,
                    p@,
                    sv[jj].0,
                ),
            selected_value as int == sel_value(gv, p@),
            *old(highest_value) <= *highest_value,
            forall|t: Selection|
                sel_complete(gv, t) && p@.is_prefix_of(t) && (t[g as int] matches Some(bi) && (
                bi as int) < b) && feasible(sv, gv, t) ==> #[trigger] sel_value(gv, t)
                    <= *highest_value as int,
            *highest_value == *old(highest_value) || (exists|t: Selection|
                #[trigger] sel_complete(gv, t) && p@.is_prefix_of(t) && feasible(sv, gv, t)
                    && sel_value(gv, t) == *highest_value as int),
            sels_view(highest_value_bid_sets@) == (if *highest_value > *old(highest_value) {
                Seq::<Selection>::empty()
            } else {
                sels_view(old(highest_value_bid_sets)@)
            }) + done_branches(gv, p@, b as int).filter(tied_pred(sv, gv, *highest_value as int)),
        decreases grp_len - b,
    {
        let mut p2 = clone_sel(p);
        p2.push(Some(b));
        proof {
            assert(p2@ =~= p@.push(Some(b)));
            assert(sel_wf(gv, p2@)) by {
                assert(forall|hh: int| 0 <= hh < p@.len() ==> p2@[hh] == p@[hh]);
                assert(p2@[g as int] == Some(b));
            }
            assert(p2@.drop_last() =~= p@);
            assert(p2@.last() == Some(b));
        }
        let ghost chosen = gv[g as int][b as int];
        proof {
            assert(gv[g as int] == group_view(groups@[g as int]@));
            assert(chosen == groups@[g as int]@[b as int]@);
        }
        // the committed demand with this bid's demand added per stock item
        let mut committed2: Vec<u64> = Vec::new();
        let mut jj: usize = 0;
        while jj < committed.len()
            invariant
                jj <= committed.len(),
                committed@.len() == item_stock@.len(),
                committed2@.len() == jj,
                sv == stock_view(item_stock@),
                gv == groups_view(groups@),
                g == p@.len(),
                g < groups@.len(),
                b < grp_len,
                grp_len == gv[g as int].len(),
                fits(sv, gv),
                sel_wf(gv, p2@),
                p2@ == p@.push(Some(b)),
                chosen == gv[g as int][b as int],
                forall|q: int|
                    0 <= q < item_stock@.len() ==> #[trigger] committed@[q] as int == sel_demand(
                        gv,
                        p@,
                        sv[q].0,
                    ),
                forall|q: int|
                    0 <= q < jj ==> #[trigger] committed2@[q] as int == sel_demand(
                        gv,
                        p2@,
                        sv[q].0,
                    ),
            decreases committed.len() - jj,
        {
            let d = bid_demand_for(&groups[g][b], &item_stock[jj].0);
            proof {
                let id = sv[jj as int].0;
                assert(sv[jj as int] == crate::types::item_view(item_stock@[jj as int]));
                assert(groups@[g as int]@[b as int]@ == chosen);
                assert(d == bid_demand(chosen.items, id));
                assert(p2@.drop_last() =~= p@);
                assert(sel_demand(gv, p2@, id) == committed@[jj as int] as int + d as int);
                lemma_sel_demand_le_upto(gv, p2@, id);
                lemma_total_demand_upto_mono(gv, p2@.len() as int, gv.len() as int, id);
                assert(total_demand(gv, id) <= u64::MAX);
                lemma_sel_demand_nonneg(gv, p@, id);
            }
            committed2.push(committed[jj] + d);
            jj += 1;
        }
        proof {
            assert(sel_value(gv, p2@) == sel_value(gv, p@) + chosen.value as int);
            lemma_sel_value_le_upto(gv, p2@);
            lemma_total_value_upto_mono(gv, p2@.len() as int, gv.len() as int);
            crate::lemmas::lemma_sel_value_nonneg(gv, p@);
        }
        let v2 = selected_value + groups[g][b].value;
        proof {
            assert(v2 as int == sel_value(gv, p2@));
        }
        let ghost b1 = *highest_value;
        let ghost s1 = sels_view(highest_value_bid_sets@);
        find_highest_value_helper(
            item_stock,
            groups,
            gmax,
            &p2,
            &committed2,
            v2,
            highest_value_bid_sets,
            highest_value,
        );
        proof {
            let b2 = *highest_value;
            let s2 = sels_view(highest_value_bid_sets@);
            let pred2 = tied_pred(sv, gv, b2 as int);
            let d_old = done_branches(gv, p@, b as int);
            let e_new = exts(gv, p2@);
            // done_branches over one more bid is the old part plus this branch
            assert(done_branches(gv, p@, b as int + 1) == d_old + exts(
                gv,
                p@.push(Some(((b as int + 1) - 1) as usize)),
            ));
            assert(p@.push(Some(((b as int + 1) - 1) as usize)) == p2@);
            // the new bound covers every branch decided so far
            assert forall|t: Selection|
                sel_complete(gv, t) && p@.is_prefix_of(t) && (t[g as int] matches Some(bi) && (
                bi as int) < b as int + 1) && feasible(sv, gv, t) implies #[trigger] sel_value(
                gv,
                t,
            ) <= b2 as int by {
                let bi = t[g as int]->Some_0;
                if (bi as int) < b as int {
                } else {
                    lemma_push_prefix(p@, t, Some(b));
                }
            }
            // a tying witness exists unless the best is untouched
            if b2 != *old(highest_value) {
                if b2 == b1 {
                } else {
                    let t = choose|t: Selection|
                        #[trigger] sel_complete(gv, t) && p2@.is_prefix_of(t) && feasible(
                            sv,
                            gv,
                            t,
                        ) && sel_value(gv, t) == b2 as int;
                    lemma_prefix_push(p@, Some(b));
                    lemma_prefix_trans(p@, p2@, t);
                    assert(sel_complete(gv, t) && p@.is_prefix_of(t) && feasible(sv, gv, t)
                        && sel_value(gv, t) == b2 as int);
                }
            }
            // the collected list matches the enumeration filtered at the new best
            Seq::<Selection>::filter_distributes_over_add(d_old, e_new, pred2);
            if b2 > b1 {
                lemma_done_sound(gv, p@, b as int);
                assert forall|q: int| 0 <= q < d_old.len() implies !pred2(#[trigger] d_old[q]) by {
                    let e = d_old[q];
                    if feasible(sv, gv, e) {
                        assert(sel_value(gv, e) <= b1 as int);
                    }
                }
                d_old.lemma_all_neg_filter_empty(pred2);
                assert(d_old.filter(pred2) =~= Seq::<Selection>::empty());
                assert(s2 =~= (if b2 > *old(highest_value) {
                    Seq::<Selection>::empty()
                } else {
                    sels_view(old(highest_value_bid_sets)@)
                }) + done_branches(gv, p@, b as int + 1).filter(pred2));
            } else {
                assert(b2 == b1);
                assert(s2 =~= (if b2 > *old(highest_value) {
                    Seq::<Selection>::empty()
                } else {
                    sels_view(old(highest_value_bid_sets)@)
                }) + done_branches(gv, p@, b as int + 1).filter(pred2));
            }
        }
        b += 1;
    }

    // finally, the branch that takes no bid from this group
    let mut p3 = clone_sel(p);
    p3.push(None);
    proof {
        assert(p3@ =~= p@.push(None));
        assert(sel_wf(gv, p3@)) by {
            assert(forall|hh: int| 0 <= hh < p@.len() ==> p3@[hh] == p@[hh]);
        }
        assert(p3@.drop_last() =~= p@);
        assert(p3@.last() == None::<usize>);
        assert forall|q: int| 0 <= q < item_stock@.len() implies #[trigger] committed@[q] as int
            == sel_demand(gv, p3@, sv[q].0) by {
            assert(sel_demand(gv, p3@, sv[q].0) == sel_demand(gv, p@, sv[q].0));
        }
        assert(selected_value as int == sel_value(gv, p3@));
    }
    let ghost b1 = *highest_value;
    let ghost s1 = sels_view(highest_value_bid_sets@);
    find_highest_value_helper(
        item_stock,
        groups,
        gmax,
        &p3,
        committed,
        selected_value,
        highest_value_bid_sets,
        highest_value,
    );
    proof {
        let b2 = *highest_value;
        let s2 = sels_view(highest_value_bid_sets@);
        let pred2 = tied_pred(sv, gv, b2 as int);
        let d_old = done_branches(gv, p@, grp_len as int);
        let e_new = exts(gv, p3@);
        assert(exts(gv, p@) == d_old + e_new);
        // the final bound covers every completion of p
        assert forall|t: Selection|
            sel_complete(gv, t) && p@.is_prefix_of(t) && feasible(sv, gv, t) implies #[trigger] sel_value(
            gv,
            t,
        ) <= b2 as int by {
            lemma_prefix_take(p@, t);
            match t[g as int] {
                Some(bi) => {
                    assert((bi as int) < gv[g as int].len());
                    assert(sel_value(gv, t) <= b1 as int);
                },
                None => {
                    lemma_push_prefix(p@, t, None);
                },
            }
        }
        // a tying witness exists unless the best is untouched
        if b2 != *old(highest_value) {
            if b2 == b1 {
            } else {
                let t = choose|t: Selection|
                    #[trigger] sel_complete(gv, t) && p3@.is_prefix_of(t) && feasible(sv, gv, t)
                        && sel_value(gv, t) == b2 as int;
                lemma_prefix_push(p@, None);
                lemma_prefix_trans(p@, p3@, t);
                assert(sel_complete(gv, t) && p@.is_prefix_of(t) && feasible(sv, gv, t)
                    && sel_value(gv, t) == b2 as int);
            }
        }
        // the collected list matches the enumeration of p filtered at the best
        Seq::<Selection>::filter_distributes_over_add(d_old, e_new, pred2);
        if b2 > b1 {
            lemma_done_sound(gv, p@, grp_len as int);
            assert forall|q: int| 0 <= q < d_old.len() implies !pred2(#[trigger] d_old[q]) by {
                let e = d_old[q];
                if feasible(sv, gv, e) {
                    assert(sel_value(gv, e) <= b1 as int);
                }
            }
            d_old.lemma_all_neg_filter_empty(pred2);
            assert(d_old.filter(pred2) =~= Seq::<Selection>::empty());
            assert(s2 =~= (if b2 > *old(highest_value) {
                Seq::<Selection>::empty()
            } else {
                sels_view(old(highest_value_bid_sets)@)
            }) + exts(gv, p@).filter(pred2));
        } else {
            assert(b2 == b1);
            assert(s2 =~= (if b2 > *old(highest_value) {
                Seq::<Selection>::empty()
            } else {
                sels_view(old(highest_value_bid_sets)@)
            }) + exts(gv, p@).filter(pred2));
        }
    }
}

/// Winner determination: the highest total value any feasible selection of
/// bids achieves, together with every selection attaining it, in search
/// order. When no bid can be taken at all, the value is zero and the one
/// returned selection is the empty one.
#[verifier::loop_isolation(false)]
pub fn find_highest_value_bid_sets(
    item_stock: &Vec<(String, u64)>,
    exclusive_bid_sets: &Vec<Vec<SimpleBid>>,
) -> (r: (Vec<Vec<Option<usize>>>, u64))
    requires
        fits(stock_view(item_stock@), groups_view(exclusive_bid_sets@)),
    ensures
        r.1 as int == opt_value(stock_view(item_stock@), groups_view(exclusive_bid_sets@)),
        sels_view(r.0@) == tied_sels(
            stock_view(item_stock@),
            groups_view(exclusive_bid_sets@),
            r.1 as int,
        ),
        r.0@.len() >= 1,
        forall|j: int|
            0 <= j < r.0@.len() ==> sel_complete(
                groups_view(exclusive_bid_sets@),
                #[trigger] sels_view(r.0@)[j],
            ) && feasible(
                stock_view(item_stock@),
                groups_view(exclusive_bid_sets@),
                sels_view(r.0@)[j],
            ) && sel_value(groups_view(exclusive_bid_sets@), sels_view(r.0@)[j]) == r.1 as int,
{
    let ghost sv = stock_view(item_stock@);
    let ghost gv = groups_view(exclusive_bid_sets@);

    // annotate each group with its highest bid value, for bound pruning
    let mut gmax: Vec<u64> = Vec::new();
    let mut h: usize = 0;
    while h < exclusive_bid_sets.len()
        invariant
            h <= exclusive_bid_sets@.len(),
            gmax@.len() == h,
            gv == groups_view(exclusive_bid_sets@),
            forall|q: int| 0 <= q < h ==> gmax@[q] as int == group_max(gv[q]),
        decreases exclusive_bid_sets@.len() - h,
    {
        let m = group_max_exec(&exclusive_bid_sets[h]);
        proof {
            assert(gv[h as int] == group_view(exclusive_bid_sets@[h as int]@));
        }
        gmax.push(m);
        h += 1;
    }

    // nothing committed yet
    let mut committed: Vec<u64> = Vec::new();
    let mut j: usize = 0;
    while j < item_stock.len()
        invariant
            j <= item_stock@.len(),
            committed@.len() == j,
            forall|q: int| 0 <= q < j ==> committed@[q] == 0u64,
        decreases item_stock@.len() - j,
    {
        committed.push(0);
        j += 1;
    }

    let p: Vec<Option<usize>> = Vec::new();
    let mut highest_value_bid_sets: Vec<Vec<Option<usize>>> = Vec::new();
    let mut highest_value: u64 = 0;
    proof {
        assert(p@ =~= Seq::<Option<usize>>::empty());
        assert(sel_wf(gv, p@));
        assert forall|q: int| 0 <= q < item_stock@.len() implies #[trigger] committed@[q] as int
            == sel_demand(gv, p@, sv[q].0) by {
            assert(sel_demand(gv, p@, sv[q].0) == 0);
        }
        assert(sel_value(gv, p@) == 0);
    }
    find_highest_value_helper(
        item_stock,
        exclusive_bid_sets,
        &gmax,
        &p,
        &committed,
        0,
        &mut highest_value_bid_sets,
        &mut highest_value,
    );
    proof {
        let best = highest_value as int;
        // the best found is the optimum
        lemma_opt_attained(sv, gv);
        let t0 = choose|t: Selection|
            #[trigger] sel_complete(gv, t) && feasible(sv, gv, t) && sel_value(gv, t) == opt_value(
                sv,
                gv,
            );
        lemma_empty_prefix(t0);
        assert(sel_value(gv, t0) <= best);
        if highest_value == 0u64 {
            lemma_opt_nonneg(sv, gv);
        } else {
            let tw = choose|t: Selection|
                #[trigger] sel_complete(gv, t) && Seq::<Option<usize>>::empty().is_prefix_of(t)
                    && feasible(sv, gv, t) && sel_value(gv, t) == best;
            lemma_opt_upper(sv, gv, tw);
        }
        assert(best == opt_value(sv, gv));
        // the collected list is the filtered enumeration
        assert(qual(sv, gv, p@, best) == tied_sels(sv, gv, best)) by {
            assert(exts(gv, p@) == exts(gv, Seq::<Option<usize>>::empty()));
        }
        assert(sels_view(highest_value_bid_sets@) =~= qual(sv, gv, p@, best));
        // the list is never empty: the optimum is attained
        let s = crate::model::all_sels(gv);
        lemma_exts_complete(gv, Seq::<Option<usize>>::empty(), t0);
        let i0 = choose|i: int| 0 <= i < s.len() && s[i] == t0;
        assert(tied_pred(sv, gv, best)(s[i0]));
        s.lemma_filter_contains(tied_pred(sv, gv, best), i0);
        let f = s.filter(tied_pred(sv, gv, best));
        assert(f.contains(t0));
        let j0 = choose|jj: int| 0 <= jj < f.len() && f[jj] == t0;
        assert(f.len() >= 1);
        // every returned selection is complete, feasible and tied at the best
        lemma_exts_sound(gv, Seq::<Option<usize>>::empty());
        assert forall|q: int| 0 <= q < f.len() implies sel_complete(gv, #[trigger] f[q])
            && feasible(sv, gv, f[q]) && sel_value(gv, f[q]) == best by {
            s.lemma_filter_pred(tied_pred(sv, gv, best), q);
            lemma_filter_subset(s, tied_pred(sv, gv, best), q);
            let iq = choose|iq: int| 0 <= iq < s.len() && s[iq] == f[q];
            assert(sel_complete(gv, s[iq]));
        }
    }
    (highest_value_bid_sets, highest_value)
}

} // verus!
