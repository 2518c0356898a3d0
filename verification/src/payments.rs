//! The payment engine: for each distinct winning bidder, the winner
//! determination is re-run on the groups with that bidder's bids removed, and
//! the bidder pays the harm done to the others — the value the others could
//! have achieved alone, minus the value the others achieve in the winning
//! outcome.

use vstd::prelude::*;

use crate::lemmas::{
    lemma_bids_take_step, lemma_list_others_bids, lemma_list_others_take_mono,
    lemma_list_others_take_step, lemma_others_le_reduced_opt, lemma_own_nonneg,
    lemma_remove_fits, lemma_sel_value_le_upto, lemma_value_split,
};
use crate::model::{
    bids_of, feasible, fits, group_view, groups_view, has_name, keep_pred, list_others,
    others_value, payment_of, payment_view, payments_of, payments_rec, payments_view,
    remove_bidder, sel_complete, sel_wf, stock_view, total_value,
};
use crate::search::find_highest_value_bid_sets;
use crate::types::{BidView, SimpleBid};

verus! {

/// The bids a selection chooses, as owned values, in group order.
#[verifier::loop_isolation(false)]
pub fn winning_bid_list(
    exclusive_bid_sets: &Vec<Vec<SimpleBid>>,
    sel: &Vec<Option<usize>>,
) -> (r: Vec<SimpleBid>)
    requires
        sel_wf(groups_view(exclusive_bid_sets@), sel@),
    ensures
        group_view(r@) == bids_of(groups_view(exclusive_bid_sets@), sel@),
{
    let ghost gv = groups_view(exclusive_bid_sets@);
    proof {
        assert(gv.len() == exclusive_bid_sets@.len());
        assert(forall|q: int|
            0 <= q < gv.len() ==> #[trigger] gv[q] == group_view(exclusive_bid_sets@[q]@));
    }
    let mut r: Vec<SimpleBid> = Vec::new();
    proof {
        assert(sel@.take(0) =~= Seq::<Option<usize>>::empty());
        assert(group_view(r@) =~= bids_of(gv, sel@.take(0)));
    }
    let mut g: usize = 0;
    while g < sel.len()
        invariant
            g <= sel@.len(),
            group_view(r@) == bids_of(gv, sel@.take(g as int)),
        decreases sel@.len() - g,
    {
        proof {
            lemma_bids_take_step(gv, sel@, g as int);
        }
        if let Some(i) = sel[g] {
            proof {
                assert(sel@[g as int] matches Some(ii) && (ii as int) < gv[g as int].len());
                assert((i as int) < exclusive_bid_sets@[g as int]@.len());
            }
            let bid = exclusive_bid_sets[g][i].clone();
            proof {
                assert(bid@ == gv[g as int][i as int]);
            }
            r.push(bid);
            proof {
                assert(group_view(r@) =~= bids_of(gv, sel@.take(g as int + 1)));
            }
        } else {
            proof {
                assert(bids_of(gv, sel@.take(g as int + 1)) =~= group_view(r@));
            }
        }
        g += 1;
    }
    proof {
        assert(sel@.take(sel@.len() as int) =~= sel@);
    }
    r
}

/// The bid groups with every bid of the named bidder removed from every
/// group.
#[verifier::loop_isolation(false)]
fn remove_bidder_exec(exclusive_bid_sets: &Vec<Vec<SimpleBid>>, name: &String) -> (r: Vec<
    Vec<SimpleBid>,
>)
    ensures
        groups_view(r@) == remove_bidder(groups_view(exclusive_bid_sets@), name@),
{
    let ghost gv = groups_view(exclusive_bid_sets@);
    let ghost rgv = remove_bidder(gv, name@);
    proof {
        assert(gv.len() == exclusive_bid_sets@.len());
        assert(forall|q: int|
            0 <= q < gv.len() ==> #[trigger] gv[q] == group_view(exclusive_bid_sets@[q]@));
        assert(forall|q: int|
            0 <= q < gv.len() ==> #[trigger] rgv[q] == gv[q].filter(keep_pred(name@)));
    }
    let mut r: Vec<Vec<SimpleBid>> = Vec::new();
    let mut g: usize = 0;
    while g < exclusive_bid_sets.len()
        invariant
            g <= exclusive_bid_sets@.len(),
            r@.len() == g,
            forall|q: int| 0 <= q < g ==> group_view(#[trigger] r@[q]@) == rgv[q],
        decreases exclusive_bid_sets@.len() - g,
    {
        let grp = &exclusive_bid_sets[g];
        let ghost gvw = group_view(grp@);
        let mut out: Vec<SimpleBid> = Vec::new();
        proof {
            assert(gvw.take(0) =~= Seq::<BidView>::empty());
            assert(group_view(out@) =~= gvw.take(0).filter(keep_pred(name@)));
        }
        let mut i: usize = 0;
        while i < grp.len()
            invariant
                i <= grp@.len(),
                group_view(out@) == gvw.take(i as int).filter(keep_pred(name@)),
            decreases grp@.len() - i,
        {
            proof {
                reveal(Seq::filter);
                assert(gvw.take(i as int + 1).drop_last() =~= gvw.take(i as int));
                assert(gvw.take(i as int + 1).last() == gvw[i as int]);
            }
            if !(grp[i].name == *name) {
                proof {
                    assert(keep_pred(name@)(gvw[i as int]));
                }
                out.push(grp[i].clone());
                proof {
                    assert(group_view(out@) =~= gvw.take(i as int + 1).filter(keep_pred(name@)));
                }
            } else {
                proof {
                    assert(!keep_pred(name@)(gvw[i as int]));
                    assert(group_view(out@) =~= gvw.take(i as int + 1).filter(keep_pred(name@)));
                }
            }
            i += 1;
        }
        proof {
            assert(gvw.take(grp@.len() as int) =~= gvw);
            assert(group_view(out@) == rgv[g as int]);
        }
        r.push(out);
        g += 1;
    }
    proof {
        assert(groups_view(r@) =~= rgv);
    }
    r
}

/// Whether the payment list already holds an entry for the named bidder.
#[verifier::loop_isolation(false)]
fn has_name_exec(payments: &Vec<(String, u64)>, name: &String) -> (r: bool)
    ensures
        r == has_name(payments_view(payments@), name@),
{
    let ghost acc = payments_view(payments@);
    proof {
        assert(acc.len() == payments@.len());
        assert(forall|q: int|
            0 <= q < acc.len() ==> #[trigger] acc[q] == payment_view(payments@[q]));
    }
    let mut i: usize = 0;
    while i < payments.len()
        invariant
            i <= payments@.len(),
            forall|q: int| 0 <= q < i ==> (#[trigger] acc[q]).0 != name@,
        decreases payments@.len() - i,
    {
        if payments[i].0 == *name {
            proof {
                assert(acc[i as int].0 == name@);
            }
            return true;
        }
        i += 1;
    }
    proof {
        if has_name(acc, name@) {
            let q = choose|q: int| 0 <= q < acc.len() && acc[q].0 == name@;
            assert(acc[q].0 != name@);
        }
    }
    false
}

/// The payment each distinct winning bidder makes: the optimum achievable
/// without that bidder's bids, minus the value the other bidders contribute
/// to the winning outcome. One entry per distinct bidder, in order of first
/// appearance among the winning bids.
#[verifier::loop_isolation(false)]
pub fn calculate_payments(
    winning_bid_set: &Vec<Option<usize>>,
    item_stock: &Vec<(String, u64)>,
    exclusive_bid_sets: &Vec<Vec<SimpleBid>>,
) -> (payments: Vec<(String, u64)>)
    requires
        fits(stock_view(item_stock@), groups_view(exclusive_bid_sets@)),
        sel_complete(groups_view(exclusive_bid_sets@), winning_bid_set@),
        feasible(
            stock_view(item_stock@),
            groups_view(exclusive_bid_sets@),
            winning_bid_set@,
        ),
    ensures
        payments_view(payments@) == payments_of(
            stock_view(item_stock@),
            groups_view(exclusive_bid_sets@),
            winning_bid_set@,
        ),
{
    let ghost sv = stock_view(item_stock@);
    let ghost gv = groups_view(exclusive_bid_sets@);
    let ghost sel = winning_bid_set@;
    let wbids = winning_bid_list(exclusive_bid_sets, winning_bid_set);
    let ghost wb = group_view(wbids@);
    proof {
        assert(wb == bids_of(gv, sel));
        assert(wb.len() == wbids@.len());
        assert(forall|q: int| 0 <= q < wb.len() ==> #[trigger] wb[q] == wbids@[q]@);
        assert(payments_view(Seq::<(String, u64)>::empty()) =~= Seq::<(Seq<char>, int)>::empty());
    }
    let mut payments: Vec<(String, u64)> = Vec::new();
    proof {
        assert(payments_view(payments@) =~= Seq::<(Seq<char>, int)>::empty());
    }
    let mut i: usize = 0;
    while i < wbids.len()
        invariant
            i <= wbids@.len(),
            payments_of(sv, gv, sel) == payments_rec(
                sv,
                gv,
                sel,
                wb,
                i as int,
                payments_view(payments@),
            ),
        decreases wbids@.len() - i,
    {
        let ghost nm = wb[i as int].name;
        let already = has_name_exec(&payments, &wbids[i].name);
        proof {
            assert(wbids@[i as int]@.name == nm);
            assert(already == has_name(payments_view(payments@), nm));
        }
        if !already {
            // the best the others could do if this bidder had never bid
            let reduced = remove_bidder_exec(exclusive_bid_sets, &wbids[i].name);
            proof {
                assert(groups_view(reduced@) == remove_bidder(gv, nm));
                lemma_remove_fits(sv, gv, nm);
            }
            let wd = find_highest_value_bid_sets(item_stock, &reduced);
            let auction_value_without_bidder = wd.1;
            proof {
                assert(auction_value_without_bidder as int == crate::model::opt_value(
                    sv,
                    remove_bidder(gv, nm),
                ));
                lemma_list_others_bids(gv, sel, nm);
                lemma_value_split(gv, sel, nm);
                lemma_own_nonneg(gv, sel, nm);
                lemma_sel_value_le_upto(gv, sel);
                assert(others_value(gv, sel, nm) <= total_value(gv));
                assert(wb.take(0) =~= Seq::<BidView>::empty());
            }
            // the value the other bidders' winning bids contribute
            let mut value_of_other_bids: u64 = 0;
            let mut q: usize = 0;
            while q < wbids.len()
                invariant
                    q <= wbids@.len(),
                    value_of_other_bids as int == list_others(wb.take(q as int), nm),
                decreases wbids@.len() - q,
            {
                proof {
                    lemma_list_others_take_step(wb, nm, q as int);
                    lemma_list_others_take_mono(wb, nm, q as int + 1, wb.len() as int);
                    assert(wb.take(wb.len() as int) =~= wb);
                }
                if !(wbids[q].name == wbids[i].name) {
                    value_of_other_bids = value_of_other_bids + wbids[q].value;
                }
                q += 1;
            }
            proof {
                assert(wb.take(wb.len() as int) =~= wb);
                assert(value_of_other_bids as int == others_value(gv, sel, nm));
                lemma_others_le_reduced_opt(sv, gv, sel, nm);
                assert(value_of_other_bids <= auction_value_without_bidder);
            }
            // the winner pays the harm done to the others
            let payment = auction_value_without_bidder - value_of_other_bids;
            let ghost acc0 = payments_view(payments@);
            let entry_name = wbids[i].name.clone();
            payments.push((entry_name, payment));
            proof {
                assert(payment as int == payment_of(sv, gv, sel, nm));
                assert(payments_view(payments@) =~= acc0.push((nm, payment as int)));
            }
        }
        i += 1;
    }
    proof {
        assert(payments_rec(sv, gv, sel, wb, wb.len() as int, payments_view(payments@))
            == payments_view(payments@));
    }
    payments
}

} // verus!
