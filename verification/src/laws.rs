//! The laws of the auction, stated and proved over the model: feasibility and
//! exclusivity of every returned allocation, optimality and tie completeness
//! of the winner determination, the bounds on every payment, and the
//! determinism of the whole computation.

use vstd::prelude::*;

use crate::lemmas::{
    lemma_empty_prefix, lemma_exts_complete, lemma_exts_sound, lemma_filter_subset,
    lemma_opt_upper, lemma_payment_le_own, lemma_payment_nonneg,
};
use crate::model::{
    all_sels, feasible, group_contribution, groups_bounded, has_name, opt_value, outcome_at,
    own_value, payment_of, payments_of, payments_rec, sel_complete, sel_value, sel_wf,
    tied_pred, tied_sels, GroupsView, OutcomeView, Selection, StockView,
};
use crate::types::BidView;

verus! {

/// Law: every allocation tied at the optimum is a complete, feasible
/// selection worth exactly the optimum — no item of the stock is ever
/// demanded beyond its quantity.
pub proof fn lemma_tied_feasible(sv: StockView, gv: GroupsView, j: int)
    requires
        0 <= j < tied_sels(sv, gv, opt_value(sv, gv)).len(),
    ensures
        sel_complete(gv, tied_sels(sv, gv, opt_value(sv, gv))[j]),
        feasible(sv, gv, tied_sels(sv, gv, opt_value(sv, gv))[j]),
        sel_value(gv, tied_sels(sv, gv, opt_value(sv, gv))[j]) == opt_value(sv, gv),
{
    let s = all_sels(gv);
    let pred = tied_pred(sv, gv, opt_value(sv, gv));
    s.lemma_filter_pred(pred, j);
    lemma_filter_subset(s, pred, j);
    let i = choose|i: int| 0 <= i < s.len() && s[i] == s.filter(pred)[j];
    lemma_exts_sound(gv, Seq::<Option<usize>>::empty());
    assert(sel_complete(gv, s[i]));
}

/// Law: an allocation never holds two bids from the same exclusive group. A
/// selection chooses at most one index per group, so each group contributes
/// at most one bid to the outcome; this is definitional in the model.
pub proof fn lemma_group_exclusive(gv: GroupsView, sel: Selection, g: int)
    requires
        sel_wf(gv, sel),
    ensures
        group_contribution(gv, sel, g).len() <= 1,
{
}

/// Law: no feasible allocation is worth more than the optimum the winner
/// determination returns.
pub proof fn lemma_optimality(sv: StockView, gv: GroupsView, t: Selection)
    requires
        sel_complete(gv, t),
        feasible(sv, gv, t),
    ensures
        sel_value(gv, t) <= opt_value(sv, gv),
{
    lemma_opt_upper(sv, gv, t);
}

/// Law: tie completeness — every feasible allocation worth exactly the
/// optimum occurs in the tied set the winner determination returns.
pub proof fn lemma_tie_completeness(sv: StockView, gv: GroupsView, t: Selection)
    requires
        sel_complete(gv, t),
        feasible(sv, gv, t),
        sel_value(gv, t) == opt_value(sv, gv),
    ensures
        tied_sels(sv, gv, opt_value(sv, gv)).contains(t),
{
    lemma_empty_prefix(t);
    lemma_exts_complete(gv, Seq::<Option<usize>>::empty(), t);
    let s = all_sels(gv);
    let i = choose|i: int| 0 <= i < s.len() && s[i] == t;
    assert(tied_pred(sv, gv, opt_value(sv, gv))(s[i]));
    s.lemma_filter_contains(tied_pred(sv, gv, opt_value(sv, gv)), i);
}

/// Every entry the payment walk adds on top of non-negative entries is
/// non-negative.
proof fn lemma_payments_rec_nonneg(
    sv: StockView,
    gv: GroupsView,
    sel: Selection,
    wb: Seq<BidView>,
    i: int,
    acc: Seq<(Seq<char>, int)>,
)
    requires
        sel_complete(gv, sel),
        feasible(sv, gv, sel),
        forall|q: int| 0 <= q < acc.len() ==> (#[trigger] acc[q]).1 >= 0,
    ensures
        forall|q: int|
            0 <= q < payments_rec(sv, gv, sel, wb, i, acc).len() ==> (#[trigger] payments_rec(
                sv,
                gv,
                sel,
                wb,
                i,
                acc,
            )[q]).1 >= 0,
    decreases wb.len() - i,
{
    if 0 <= i < wb.len() {
        if has_name(acc, wb[i].name) {
            lemma_payments_rec_nonneg(sv, gv, sel, wb, i + 1, acc);
            assert(payments_rec(sv, gv, sel, wb, i, acc) == payments_rec(
                sv,
                gv,
                sel,
                wb,
                i + 1,
                acc,
            ));
        } else {
            lemma_payment_nonneg(sv, gv, sel, wb[i].name);
            let acc2 = acc.push((wb[i].name, payment_of(sv, gv, sel, wb[i].name)));
            assert(forall|q: int| 0 <= q < acc.len() ==> acc2[q] == #[trigger] acc[q]);
            lemma_payments_rec_nonneg(sv, gv, sel, wb, i + 1, acc2);
            assert(payments_rec(sv, gv, sel, wb, i, acc) == payments_rec(
                sv,
                gv,
                sel,
                wb,
                i + 1,
                acc2,
            ));
        }
    } else {
        assert(payments_rec(sv, gv, sel, wb, i, acc) == acc);
    }
}

/// Law: payment non-negativity — no winning bidder is ever paid by the
/// auction; every computed payment is at least zero.
pub proof fn lemma_payments_nonneg(sv: StockView, gv: GroupsView, sel: Selection, j: int)
    requires
        sel_complete(gv, sel),
        feasible(sv, gv, sel),
        0 <= j < payments_of(sv, gv, sel).len(),
    ensures
        payments_of(sv, gv, sel)[j].1 >= 0,
{
    lemma_payments_rec_nonneg(
        sv,
        gv,
        sel,
        crate::model::bids_of(gv, sel),
        0,
        Seq::<(Seq<char>, int)>::empty(),
    );
}

/// Every entry the payment walk adds on top of entries bounded by their own
/// contribution stays bounded by its bidder's own contribution.
proof fn lemma_payments_rec_le_own(
    sv: StockView,
    gv: GroupsView,
    sel: Selection,
    wb: Seq<BidView>,
    i: int,
    acc: Seq<(Seq<char>, int)>,
)
    requires
        groups_bounded(gv),
        sel_complete(gv, sel),
        feasible(sv, gv, sel),
        sel_value(gv, sel) == opt_value(sv, gv),
        forall|q: int|
            0 <= q < acc.len() ==> (#[trigger] acc[q]).1 <= own_value(gv, sel, acc[q].0),
    ensures
        forall|q: int|
            0 <= q < payments_rec(sv, gv, sel, wb, i, acc).len() ==> (#[trigger] payments_rec(
                sv,
                gv,
                sel,
                wb,
                i,
                acc,
            )[q]).1 <= own_value(gv, sel, payments_rec(sv, gv, sel, wb, i, acc)[q].0),
    decreases wb.len() - i,
{
    if 0 <= i < wb.len() {
        if has_name(acc, wb[i].name) {
            lemma_payments_rec_le_own(sv, gv, sel, wb, i + 1, acc);
            assert(payments_rec(sv, gv, sel, wb, i, acc) == payments_rec(
                sv,
                gv,
                sel,
                wb,
                i + 1,
                acc,
            ));
        } else {
            lemma_payment_le_own(sv, gv, sel, wb[i].name);
            let acc2 = acc.push((wb[i].name, payment_of(sv, gv, sel, wb[i].name)));
            assert(forall|q: int| 0 <= q < acc.len() ==> acc2[q] == #[trigger] acc[q]);
            lemma_payments_rec_le_own(sv, gv, sel, wb, i + 1, acc2);
            assert(payments_rec(sv, gv, sel, wb, i, acc) == payments_rec(
                sv,
                gv,
                sel,
                wb,
                i + 1,
                acc2,
            ));
        }
    } else {
        assert(payments_rec(sv, gv, sel, wb, i, acc) == acc);
    }
}

/// Law: payment bound — no winning bidder pays more than that bidder's own
/// bids contribute to the winning outcome.
pub proof fn lemma_payments_le_own(sv: StockView, gv: GroupsView, sel: Selection, j: int)
    requires
        groups_bounded(gv),
        sel_complete(gv, sel),
        feasible(sv, gv, sel),
        sel_value(gv, sel) == opt_value(sv, gv),
        0 <= j < payments_of(sv, gv, sel).len(),
    ensures
        payments_of(sv, gv, sel)[j].1 <= own_value(gv, sel, payments_of(sv, gv, sel)[j].0),
{
    lemma_payments_rec_le_own(
        sv,
        gv,
        sel,
        crate::model::bids_of(gv, sel),
        0,
        Seq::<(Seq<char>, int)>::empty(),
    );
}

/// Law: idempotence — the auction outcome is a function of the stock, the
/// bid groups and the index the tie break picks, so re-running the
/// computation on identical inputs with the same tie choice returns an
/// identical result.
pub proof fn lemma_idempotent(
    sv: StockView,
    gv: GroupsView,
    k: int,
    r1: OutcomeView,
    r2: OutcomeView,
)
    requires
        r1 == outcome_at(sv, gv, k),
        r2 == outcome_at(sv, gv, k),
    ensures
        r1 == r2,
{
}

} // verus!
