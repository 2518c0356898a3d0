//! Mathematical model of the auction.
//!
//! A candidate outcome is a *selection*: one `Option<usize>` per exclusive bid
//! group, naming the index of the chosen bid in that group, or `None` when no
//! bid from the group is taken. A selection therefore can never contain two
//! bids from the same group. The model defines the demand, the value, the
//! feasibility and the enumeration order of selections, the optimum, and the
//! VCG payments, all as specification functions.

use vstd::prelude::*;

use crate::types::BidView;
use crate::types::SimpleBid;

verus! {

/// One candidate outcome: per exclusive bid group, the index of the chosen
/// bid, or `None` when the group contributes no bid.
pub type Selection = Seq<Option<usize>>;

/// The view of an item stock: (item name, quantity available) pairs.
pub type StockView = Seq<(Seq<char>, u64)>;

/// The view of the exclusive bid groups.
pub type GroupsView = Seq<Seq<BidView>>;

/// The quantity of the item `id` demanded by a bid with demand list `items`:
/// the quantity of the first entry naming `id`, or zero when no entry does.
pub open spec fn bid_demand(items: Seq<(Seq<char>, u64)>, id: Seq<char>) -> u64
    decreases items.len(),
{
    if items.len() == 0 {
        0u64
    } else if items[0].0 == id {
        items[0].1
    } else {
        bid_demand(items.drop_first(), id)
    }
}

/// A selection is well-formed when it decides no more groups than exist and
/// every chosen index lies inside its group.
pub open spec fn sel_wf(gv: GroupsView, sel: Selection) -> bool {
    &&& sel.len() <= gv.len()
    &&& forall|g: int|
        0 <= g < sel.len() ==> (#[trigger] sel[g] matches Some(i) ==> (i as int) < gv[g].len())
}

/// A selection that decides every group.
pub open spec fn sel_complete(gv: GroupsView, sel: Selection) -> bool {
    sel_wf(gv, sel) && sel.len() == gv.len()
}

/// Total quantity of the item `id` demanded by the bids a selection chooses.
pub open spec fn sel_demand(gv: GroupsView, sel: Selection, id: Seq<char>) -> int
    decreases sel.len(),
{
    if sel.len() == 0 {
        0
    } else {
        sel_demand(gv, sel.drop_last(), id) + match sel.last() {
            Some(i) => bid_demand(gv[sel.len() - 1][i as int].items, id) as int,
            None => 0,
        }
    }
}

/// Total value of the bids a selection chooses.
pub open spec fn sel_value(gv: GroupsView, sel: Selection) -> int
    decreases sel.len(),
{
    if sel.len() == 0 {
        0
    } else {
        sel_value(gv, sel.drop_last()) + match sel.last() {
            Some(i) => gv[sel.len() - 1][i as int].value as int,
            None => 0,
        }
    }
}

/// Feasibility: no item of the stock is demanded beyond its quantity.
pub open spec fn feasible(sv: StockView, gv: GroupsView, sel: Selection) -> bool {
    forall|j: int| 0 <= j < sv.len() ==> sel_demand(gv, sel, #[trigger] sv[j].0) <= sv[j].1
}

/// The highest bid value inside one group (zero for an empty group).
pub open spec fn group_max(grp: Seq<BidView>) -> int
    decreases grp.len(),
{
    if grp.len() == 0 {
        0
    } else {
        let m = group_max(grp.drop_last());
        if grp.last().value as int > m {
            grp.last().value as int
        } else {
            m
        }
    }
}

/// Sum of the per-group highest bid values over the groups from `g` on: a
/// quantity-ignoring upper bound on what the undecided groups can still add.
pub open spec fn max_sum(gv: GroupsView, g: int) -> int
    decreases gv.len() - g,
{
    if g < 0 || g >= gv.len() {
        0
    } else {
        group_max(gv[g]) + max_sum(gv, g + 1)
    }
}

/// Sum of all bid values inside one group.
pub open spec fn group_value_total(grp: Seq<BidView>) -> int
    decreases grp.len(),
{
    if grp.len() == 0 {
        0
    } else {
        group_value_total(grp.drop_last()) + grp.last().value as int
    }
}

/// Sum of all bid values in the groups before `k`.
pub open spec fn total_value_upto(gv: GroupsView, k: int) -> int
    decreases k,
{
    if k <= 0 {
        0
    } else {
        total_value_upto(gv, k - 1) + group_value_total(gv[k - 1])
    }
}

/// Sum of all bid values over all groups.
pub open spec fn total_value(gv: GroupsView) -> int {
    total_value_upto(gv, gv.len() as int)
}

/// Sum over all bids of one group of the quantity demanded of the item `id`.
pub open spec fn group_demand_total(grp: Seq<BidView>, id: Seq<char>) -> int
    decreases grp.len(),
{
    if grp.len() == 0 {
        0
    } else {
        group_demand_total(grp.drop_last(), id) + bid_demand(grp.last().items, id) as int
    }
}

/// Sum over all bids of the groups before `k` of the demand for item `id`.
pub open spec fn total_demand_upto(gv: GroupsView, k: int, id: Seq<char>) -> int
    decreases k,
{
    if k <= 0 {
        0
    } else {
        total_demand_upto(gv, k - 1, id) + group_demand_total(gv[k - 1], id)
    }
}

/// Sum over all bids of all groups of the demand for item `id`.
pub open spec fn total_demand(gv: GroupsView, id: Seq<char>) -> int {
    total_demand_upto(gv, gv.len() as int, id)
}

/// Every group is small enough to index with a machine integer; this holds
/// of every group view taken from a vector.
pub open spec fn groups_bounded(gv: GroupsView) -> bool {
    forall|g: int| 0 <= g < gv.len() ==> #[trigger] gv[g].len() <= usize::MAX
}

/// The machine limits under which the engine's u64 arithmetic cannot
/// overflow: the sum of all bid values, and per stock item the sum of all
/// demanded quantities, fit in a u64.
pub open spec fn fits(sv: StockView, gv: GroupsView) -> bool {
    &&& total_value(gv) <= u64::MAX
    &&& forall|j: int| 0 <= j < sv.len() ==> total_demand(gv, #[trigger] sv[j].0) <= u64::MAX
}

/// All complete selections extending the prefix `p`, in the order the search
/// visits them: for each group first every bid in group order, then no bid.
pub open spec fn exts(gv: GroupsView, p: Selection) -> Seq<Selection>
    decreases gv.len() - p.len(), 1int, 0int,
{
    if p.len() >= gv.len() {
        seq![p]
    } else {
        done_branches(gv, p, gv[p.len() as int].len() as int) + exts(gv, p.push(None))
    }
}

/// All complete selections extending `p` that choose one of the first `i`
/// bids of the next group, in search order.
pub open spec fn done_branches(gv: GroupsView, p: Selection, i: int) -> Seq<Selection>
    decreases gv.len() - p.len(), 0int, i,
{
    if p.len() >= gv.len() || i <= 0 {
        Seq::empty()
    } else {
        done_branches(gv, p, i - 1) + exts(gv, p.push(Some((i - 1) as usize)))
    }
}

/// All complete selections, in search order.
pub open spec fn all_sels(gv: GroupsView) -> Seq<Selection> {
    exts(gv, Seq::empty())
}

/// The predicate satisfied by the selections tied at value `m`.
pub open spec fn tied_pred(sv: StockView, gv: GroupsView, m: int) -> spec_fn(Selection) -> bool {
    |t: Selection| feasible(sv, gv, t) && sel_value(gv, t) == m
}

/// The feasibility predicate on selections.
pub open spec fn feas_pred(sv: StockView, gv: GroupsView) -> spec_fn(Selection) -> bool {
    |t: Selection| feasible(sv, gv, t)
}

/// The feasible completions of `p` whose value is `m`, in search order.
pub open spec fn qual(sv: StockView, gv: GroupsView, p: Selection, m: int) -> Seq<Selection> {
    exts(gv, p).filter(tied_pred(sv, gv, m))
}

/// All feasible selections whose value is `m`, in search order.
pub open spec fn tied_sels(sv: StockView, gv: GroupsView, m: int) -> Seq<Selection> {
    all_sels(gv).filter(tied_pred(sv, gv, m))
}

/// The largest selection value occurring in `s` (zero for an empty `s`).
pub open spec fn max_value_of(gv: GroupsView, s: Seq<Selection>) -> int
    decreases s.len(),
{
    if s.len() == 0 {
        0
    } else {
        let m = max_value_of(gv, s.drop_last());
        if sel_value(gv, s.last()) > m {
            sel_value(gv, s.last())
        } else {
            m
        }
    }
}

/// The maximum total value over all feasible selections. The selection that
/// chooses no bid at all is always feasible with value zero, so this is
/// well-defined and non-negative.
pub open spec fn opt_value(sv: StockView, gv: GroupsView) -> int {
    max_value_of(gv, all_sels(gv).filter(feas_pred(sv, gv)))
}

/// The selection that chooses no bid from any of `n` groups.
pub open spec fn none_sel(n: int) -> Selection {
    Seq::new(n as nat, |i: int| None)
}

/// The bids a selection chooses, in group order.
pub open spec fn bids_of(gv: GroupsView, sel: Selection) -> Seq<BidView>
    decreases sel.len(),
{
    if sel.len() == 0 {
        Seq::empty()
    } else {
        bids_of(gv, sel.drop_last()) + match sel.last() {
            Some(i) => seq![gv[sel.len() - 1][i as int]],
            None => Seq::empty(),
        }
    }
}

/// The bids one exclusive group contributes to a selection: the one chosen
/// bid, or nothing.
pub open spec fn group_contribution(gv: GroupsView, sel: Selection, g: int) -> Seq<BidView> {
    if 0 <= g < sel.len() {
        match sel[g] {
            Some(i) => seq![gv[g][i as int]],
            None => Seq::empty(),
        }
    } else {
        Seq::empty()
    }
}

/// The value the bids of bidders other than `nm` contribute to a selection.
pub open spec fn others_value(gv: GroupsView, sel: Selection, nm: Seq<char>) -> int
    decreases sel.len(),
{
    if sel.len() == 0 {
        0
    } else {
        others_value(gv, sel.drop_last(), nm) + match sel.last() {
            Some(i) => if gv[sel.len() - 1][i as int].name == nm {
                0
            } else {
                gv[sel.len() - 1][i as int].value as int
            },
            None => 0,
        }
    }
}

/// The value the bids of bidder `nm` contribute to a selection.
pub open spec fn own_value(gv: GroupsView, sel: Selection, nm: Seq<char>) -> int
    decreases sel.len(),
{
    if sel.len() == 0 {
        0
    } else {
        own_value(gv, sel.drop_last(), nm) + match sel.last() {
            Some(i) => if gv[sel.len() - 1][i as int].name == nm {
                gv[sel.len() - 1][i as int].value as int
            } else {
                0
            },
            None => 0,
        }
    }
}

/// The predicate keeping the bids not placed by bidder `nm`.
pub open spec fn keep_pred(nm: Seq<char>) -> spec_fn(BidView) -> bool {
    |b: BidView| b.name != nm
}

/// The groups with every bid of bidder `nm` removed from every group.
pub open spec fn remove_bidder(gv: GroupsView, nm: Seq<char>) -> GroupsView {
    gv.map_values(|grp: Seq<BidView>| grp.filter(keep_pred(nm)))
}

/// The value the listed bids of bidders other than `nm` sum to.
pub open spec fn list_others(bids: Seq<BidView>, nm: Seq<char>) -> int
    decreases bids.len(),
{
    if bids.len() == 0 {
        0
    } else {
        list_others(bids.drop_last(), nm) + if bids.last().name == nm {
            0
        } else {
            bids.last().value as int
        }
    }
}

/// The winning selection carried over to the groups with bidder `nm`
/// removed: `nm`'s chosen bids are dropped, every other chosen bid keeps its
/// place, at the index it has after the removal.
pub open spec fn reduced_sel(gv: GroupsView, sel: Selection, nm: Seq<char>) -> Selection {
    Seq::new(
        sel.len(),
        |g: int|
            match sel[g] {
                Some(i) => if gv[g][i as int].name == nm {
                    None
                } else {
                    Some(gv[g].take(i as int).filter(keep_pred(nm)).len() as usize)
                },
                None => None,
            },
    )
}

/// A selection of the reduced groups carried back to the full groups: each
/// chosen bid is found again at some index of its unfiltered group.
pub open spec fn unremoved_sel(gv: GroupsView, nm: Seq<char>, rs: Selection) -> Selection {
    Seq::new(
        rs.len(),
        |g: int|
            match rs[g] {
                Some(j) => Some(
                    (choose|i: int|
                        0 <= i < gv[g].len() && gv[g][i] == remove_bidder(gv, nm)[g][j as int])
                        as usize,
                ),
                None => None,
            },
    )
}

/// The VCG payment of bidder `nm` under the winning selection `sel`: the
/// value the other bidders could have achieved without `nm`, minus the value
/// the other bidders achieve in `sel`.
pub open spec fn payment_of(sv: StockView, gv: GroupsView, sel: Selection, nm: Seq<char>) -> int {
    opt_value(sv, remove_bidder(gv, nm)) - others_value(gv, sel, nm)
}

/// Whether the accumulated payment list already holds an entry for `nm`.
pub open spec fn has_name(acc: Seq<(Seq<char>, int)>, nm: Seq<char>) -> bool {
    exists|j: int| 0 <= j < acc.len() && acc[j].0 == nm
}

/// The payment list built by walking the winning bids `wb` from index `i` on:
/// one entry per distinct bidder name, in order of first appearance.
pub open spec fn payments_rec(
    sv: StockView,
    gv: GroupsView,
    sel: Selection,
    wb: Seq<BidView>,
    i: int,
    acc: Seq<(Seq<char>, int)>,
) -> Seq<(Seq<char>, int)>
    decreases wb.len() - i,
{
    if i < 0 || i >= wb.len() {
        acc
    } else if has_name(acc, wb[i].name) {
        payments_rec(sv, gv, sel, wb, i + 1, acc)
    } else {
        payments_rec(sv, gv, sel, wb, i + 1, acc.push((wb[i].name, payment_of(sv, gv, sel, wb[i].name))))
    }
}

/// The payment list of the winning selection `sel`: one (bidder, payment)
/// entry per distinct winning bidder, in order of first appearance among the
/// winning bids.
pub open spec fn payments_of(sv: StockView, gv: GroupsView, sel: Selection) -> Seq<(Seq<char>, int)> {
    payments_rec(sv, gv, sel, bids_of(gv, sel), 0, Seq::empty())
}

/// The bid lists of the selections tied at the optimum, in search order:
/// what the tie-breaking adapter is shown.
pub open spec fn tied_bid_lists(sv: StockView, gv: GroupsView) -> Seq<Seq<BidView>> {
    tied_sels(sv, gv, opt_value(sv, gv)).map_values(|t: Selection| bids_of(gv, t))
}

/// The view of a full auction outcome: the winning bids and the payments.
pub ghost struct OutcomeView {
    pub winning: Seq<BidView>,
    pub payments: Seq<(Seq<char>, int)>,
}

/// The outcome of the auction when the selection tied at the optimum with
/// index `i` (in search order) is chosen.
pub open spec fn outcome_at(sv: StockView, gv: GroupsView, i: int) -> OutcomeView {
    let sel = tied_sels(sv, gv, opt_value(sv, gv))[i];
    OutcomeView { winning: bids_of(gv, sel), payments: payments_of(sv, gv, sel) }
}

/// The view of an item stock given as a vector.
pub open spec fn stock_view(stock: Seq<(String, u64)>) -> StockView {
    stock.map_values(|entry: (String, u64)| crate::types::item_view(entry))
}

/// The view of one bid group given as a vector.
pub open spec fn group_view(grp: Seq<SimpleBid>) -> Seq<BidView> {
    grp.map_values(|b: SimpleBid| b@)
}

/// The view of bid groups given as vectors.
pub open spec fn groups_view(groups: Seq<Vec<SimpleBid>>) -> GroupsView {
    groups.map_values(|grp: Vec<SimpleBid>| group_view(grp@))
}

/// The view of a list of selections given as vectors.
pub open spec fn sels_view(s: Seq<Vec<Option<usize>>>) -> Seq<Selection> {
    s.map_values(|v: Vec<Option<usize>>| v@)
}

/// The view of one payment entry: the bidder name as a character sequence
/// and the payment as an integer.
pub open spec fn payment_view(e: (String, u64)) -> (Seq<char>, int) {
    (e.0@, e.1 as int)
}

/// The view of a payment list given as a vector.
pub open spec fn payments_view(s: Seq<(String, u64)>) -> Seq<(Seq<char>, int)> {
    s.map_values(|e: (String, u64)| payment_view(e))
}

} // verus!
