//! The full auction call: winner determination, tie breaking, and the VCG
//! payments, assembled into one result.

use vstd::prelude::*;

use rand::Rng;

use crate::model::{
    bids_of, feasible, fits, group_view, groups_view, opt_value, outcome_at, payments_view,
    sel_complete, sels_view, stock_view, tied_bid_lists, tied_sels, OutcomeView,
};
use crate::payments::{calculate_payments, winning_bid_list};
use crate::search::find_highest_value_bid_sets;
use crate::types::SimpleBid;

verus! {

/// The result of a VCG auction: the winning bids, and the payment each
/// distinct winning bidder makes, in order of first appearance among the
/// winning bids.
#[derive(PartialEq, Eq, Hash, Debug)]
pub struct AuctionResult {
    pub winning_bids: Vec<SimpleBid>,
    pub payments: Vec<(String, u64)>,
}

impl View for AuctionResult {
    type V = OutcomeView;

    open spec fn view(&self) -> OutcomeView {
        OutcomeView {
            winning: group_view(self.winning_bids@),
            payments: payments_view(self.payments@),
        }
    }
}

impl Clone for AuctionResult {
    fn clone(&self) -> (r: Self)
        ensures
            r@ == self@,
    {
        let mut winning_bids: Vec<SimpleBid> = Vec::new();
        let mut i: usize = 0;
        while i < self.winning_bids.len()
            invariant
                i <= self.winning_bids@.len(),
                winning_bids@.len() == i,
                forall|j: int|
                    0 <= j < i ==> (#[trigger] winning_bids@[j])@ == self.winning_bids@[j]@,
            decreases self.winning_bids.len() - i,
        {
            winning_bids.push(self.winning_bids[i].clone());
            i += 1;
        }
        let mut payments: Vec<(String, u64)> = Vec::new();
        let mut j: usize = 0;
        while j < self.payments.len()
            invariant
                j <= self.payments@.len(),
                payments@.len() == j,
                forall|q: int|
                    0 <= q < j ==> #[trigger] payments@[q].0@ == self.payments@[q].0@
                        && payments@[q].1 == self.payments@[q].1,
            decreases self.payments.len() - j,
        {
            payments.push((self.payments[j].0.clone(), self.payments[j].1));
            j += 1;
        }
        let r = AuctionResult { winning_bids, payments };
        proof {
            assert(group_view(r.winning_bids@) =~= group_view(self.winning_bids@));
            assert(payments_view(r.payments@) =~= payments_view(self.payments@));
        }
        r
    }
}

/// Relies on rand's thread_rng and gen_range: a uniformly distributed index
/// below the bound. gen_range panics only on an empty range, which the bound
/// being positive rules out; nothing more is assumed of the outcome.
#[verifier::external_body]
fn random_index(n: usize) -> (r: usize)
    requires
        n > 0,
    ensures
        r < n,
{
    rand::thread_rng().gen_range(0..n)
}

/// Calculate a VCG auction with a tie-breaking scheme passed in as a
/// closure. The tiebreaker is shown the bid lists of every outcome tied at
/// the maximum value and returns the index of its choice; it is consulted
/// only when more than one outcome is tied. An out-of-range index makes the
/// whole call return `None`.
#[verifier::loop_isolation(false)]
pub fn vcg_auction_with_tiebreaker<F: FnOnce(&Vec<Vec<SimpleBid>>) -> usize>(
    items: &Vec<(String, u64)>,
    exclusive_bid_sets: &Vec<Vec<SimpleBid>>,
    tiebreaker: F,
) -> (r: Option<AuctionResult>)
    requires
        fits(stock_view(items@), groups_view(exclusive_bid_sets@)),
        forall|v: &Vec<Vec<SimpleBid>>| #[trigger] tiebreaker.requires((v,)),
    ensures
        ({
            let sv = stock_view(items@);
            let gv = groups_view(exclusive_bid_sets@);
            let tied = tied_sels(sv, gv, opt_value(sv, gv));
            &&& tied.len() >= 1
            &&& (tied.len() == 1 ==> (r matches Some(res) && res@ == outcome_at(sv, gv, 0)))
            &&& (r matches Some(res) ==> (exists|k: int|
                0 <= k < tied.len() && res@ == outcome_at(sv, gv, k) && (tied.len() == 1 ==> k
                    == 0)))
            &&& (r matches Some(res) ==> (tied.len() > 1 ==> (exists|
                v: Vec<Vec<SimpleBid>>,
                k: usize,
            |
                groups_view(v@) == tied_bid_lists(sv, gv) && tiebreaker.ensures((&v,), k) && (
                k as int) < tied.len() && res@ == outcome_at(sv, gv, k as int))))
            &&& (r is None ==> tied.len() > 1 && (exists|v: Vec<Vec<SimpleBid>>, k: usize|
                groups_view(v@) == tied_bid_lists(sv, gv) && tiebreaker.ensures((&v,), k) && (
                k as int) >= tied.len()))
        }),
{
    let ghost sv = stock_view(items@);
    let ghost gv = groups_view(exclusive_bid_sets@);

    // every outcome tied at the maximum value
    let wd = find_highest_value_bid_sets(items, exclusive_bid_sets);
    let highest_bid_sets = wd.0;
    let highest_value = wd.1;
    let ghost tied = tied_sels(sv, gv, highest_value as int);

    // the bid lists the tie-breaking adapter is shown
    let mut tied_bids: Vec<Vec<SimpleBid>> = Vec::new();
    let mut k: usize = 0;
    while k < highest_bid_sets.len()
        invariant
            k <= highest_bid_sets@.len(),
            tied_bids@.len() == k,
            forall|q: int|
                0 <= q < k ==> group_view(#[trigger] tied_bids@[q]@) == bids_of(
                    gv,
                    sels_view(highest_bid_sets@)[q],
                ),
        decreases highest_bid_sets@.len() - k,
    {
        proof {
            assert(sels_view(highest_bid_sets@)[k as int] == highest_bid_sets@[k as int]@);
            assert(sel_complete(gv, sels_view(highest_bid_sets@)[k as int]));
        }
        let list = winning_bid_list(exclusive_bid_sets, &highest_bid_sets[k]);
        tied_bids.push(list);
        k += 1;
    }
    proof {
        assert(groups_view(tied_bids@) =~= tied_bid_lists(sv, gv));
    }

    let chosen: usize = if highest_bid_sets.len() <= 1 {
        0
    } else {
        tiebreaker(&tied_bids)
    };
    if chosen >= highest_bid_sets.len() {
        proof {
            assert(highest_bid_sets@.len() >= 1);
            assert(tied.len() > 1);
        }
        return None;
    }

    let winning_bid_set = &highest_bid_sets[chosen];
    proof {
        assert(sels_view(highest_bid_sets@)[chosen as int] == winning_bid_set@);
        assert(sel_complete(gv, winning_bid_set@));
        assert(feasible(sv, gv, winning_bid_set@));
    }
    let payments = calculate_payments(winning_bid_set, items, exclusive_bid_sets);
    let winning_bids = winning_bid_list(exclusive_bid_sets, winning_bid_set);
    let res = AuctionResult { winning_bids, payments };
    proof {
        assert(tied[chosen as int] == winning_bid_set@);
        assert(res@ == outcome_at(sv, gv, chosen as int));
    }
    Some(res)
}

/// Calculate a Vickrey-Clarke-Groves auction. Takes the stock of items with
/// the quantities to be auctioned, and a collection of bid groups, each
/// holding bids that are mutually exclusive of one another. If multiple
/// outcomes are tied at the maximum value, one is selected at random with a
/// uniform distribution, so this call always returns a result.
pub fn vcg_auction(
    items: &Vec<(String, u64)>,
    exclusive_bid_sets: &Vec<Vec<SimpleBid>>,
) -> (r: Option<AuctionResult>)
    requires
        fits(stock_view(items@), groups_view(exclusive_bid_sets@)),
    ensures
        ({
            let sv = stock_view(items@);
            let gv = groups_view(exclusive_bid_sets@);
            let tied = tied_sels(sv, gv, opt_value(sv, gv));
            &&& tied.len() >= 1
            &&& (r matches Some(res) && (exists|k: int|
                0 <= k < tied.len() && res@ == outcome_at(sv, gv, k)))
            &&& (tied.len() == 1 ==> (r matches Some(res) && res@ == outcome_at(sv, gv, 0)))
        }),
{
    let tiebreaker = |options: &Vec<Vec<SimpleBid>>| -> (idx: usize)
        ensures
            options@.len() > 0 ==> idx < options@.len(),
        {
            if options.len() > 0 {
                random_index(options.len())
            } else {
                0
            }
        };
    let r = vcg_auction_with_tiebreaker(items, exclusive_bid_sets, tiebreaker);
    proof {
        let sv = stock_view(items@);
        let gv = groups_view(exclusive_bid_sets@);
        let tied = tied_sels(sv, gv, opt_value(sv, gv));
        if r is None {
            let (v, k): (Vec<Vec<SimpleBid>>, usize) = choose|v: Vec<Vec<SimpleBid>>, k: usize|
                groups_view(v@) == tied_bid_lists(sv, gv) && tiebreaker.ensures((&v, ), k) && (
                k as int) >= tied.len();
            assert(groups_view(v@).len() == v@.len());
            assert(tied_bid_lists(sv, gv).len() == tied.len());
            assert(v@.len() == tied.len() > 1);
            assert(false);
        }
    }
    r
}

} // verus!
