use vcg_auction::search::find_highest_value_bid_sets;
use vcg_auction::types::SimpleBid;
use vcg_auction::vcg_auction;
use vcg_auction::vcg_auction_with_tiebreaker;

fn bid(name: &str, value: u64, items: &[(&str, u64)]) -> SimpleBid {
    SimpleBid::new(
        name.to_string(),
        value,
        items.iter().map(|(id, q)| (id.to_string(), *q)).collect(),
    )
}

/// Feasibility: the winning bids never demand more of an item than its
/// stock, even when greedy higher-value combinations would.
#[test]
fn winners_respect_stock() {
    let items = vec![("chair".to_string(), 2)];
    let bids = vec![
        vec![bid("Alice", 9, &[("chair", 2)])],
        vec![bid("Bob", 5, &[("chair", 1)])],
        vec![bid("Carol", 5, &[("chair", 1)])],
    ];
    // Bob + Carol beat Alice; Alice + either would need three chairs.
    let result = vcg_auction(&items, &bids).unwrap();
    let mut chairs: u64 = 0;
    for b in &result.winning_bids {
        for (id, q) in &b.items {
            if id.as_str() == "chair" {
                chairs += q;
                break;
            }
        }
    }
    assert!(chairs <= 2);
    assert_eq!(result.winning_bids, vec![bids[1][0].clone(), bids[2][0].clone()]);
}

/// Group exclusivity: even with stock to spare, at most one bid per
/// exclusive group wins.
#[test]
fn one_bid_per_group() {
    let items = vec![("chair".to_string(), 3)];
    let bids = vec![vec![
        bid("Alice", 5, &[("chair", 1)]),
        bid("Alice", 7, &[("chair", 2)]),
    ]];
    let result = vcg_auction(&items, &bids).unwrap();
    assert_eq!(result.winning_bids, vec![bids[0][1].clone()]);
}

/// Optimality: the returned value matches the brute-force maximum over all
/// feasible, group-exclusive combinations of this small instance.
#[test]
fn matches_brute_force_optimum() {
    let items = vec![("chair".to_string(), 2), ("table".to_string(), 1)];
    let bids = vec![
        vec![bid("Alice", 6, &[("chair", 1)]), bid("Alice", 11, &[("chair", 2)])],
        vec![bid("Bob", 7, &[("chair", 1), ("table", 1)])],
        vec![bid("Carol", 5, &[("table", 1)])],
    ];
    let (_, best) = find_highest_value_bid_sets(&items, &bids);
    // brute force over (3 options) x (2 options) x (2 options)
    let mut max_value: u64 = 0;
    for a in 0..3usize {
        for b in 0..2usize {
            for c in 0..2usize {
                let chairs = [0, 1, 2][a] + [0, 1][b];
                let tables = [0, 0, 0][a] + [0, 1][b] + [0, 1][c];
                if chairs <= 2 && tables <= 1 {
                    let value = [0, 6, 11][a] + [0, 7][b] + [0, 5][c];
                    if value > max_value {
                        max_value = value;
                    }
                }
            }
        }
    }
    assert_eq!(best, max_value);
    assert_eq!(best, 16); // Alice's two chairs + Carol's table
}

/// Tie completeness: with two outcomes tied at the maximum, the winner
/// determination returns both, in search order.
#[test]
fn all_tied_outcomes_returned() {
    let items = vec![("chair".to_string(), 1)];
    let bids = vec![
        vec![bid("Alice", 10, &[("chair", 1)])],
        vec![bid("Bob", 10, &[("chair", 1)])],
    ];
    let (tied, best) = find_highest_value_bid_sets(&items, &bids);
    assert_eq!(best, 10);
    assert_eq!(
        tied,
        vec![vec![Some(0), None], vec![None, Some(0)]]
    );
}

/// Payment non-negativity and the payment bound: every payment is at least
/// zero and never exceeds the bidder's own winning bid values.
#[test]
fn payments_within_bounds() {
    let items = vec![("apple".to_string(), 2)];
    let bids = vec![
        vec![bid("Alice", 5, &[("apple", 1)])],
        vec![bid("Bob", 2, &[("apple", 1)])],
        vec![bid("Carol", 6, &[("apple", 2)])],
    ];
    let result = vcg_auction(&items, &bids).unwrap();
    for (name, payment) in &result.payments {
        let own: u64 = result
            .winning_bids
            .iter()
            .filter(|b| b.name == *name)
            .map(|b| b.value)
            .sum();
        assert!(*payment <= own);
    }
    assert_eq!(
        result.payments,
        vec![("Alice".to_string(), 4), ("Bob".to_string(), 1)]
    );
}

/// Idempotence: identical inputs with a fixed tiebreaker give identical
/// results, run after run.
#[test]
fn rerun_is_identical() {
    let items = vec![("chair".to_string(), 1)];
    let bids = vec![
        vec![bid("Alice", 10, &[("chair", 1)])],
        vec![bid("Bob", 10, &[("chair", 1)])],
    ];
    let first = vcg_auction_with_tiebreaker(&items, &bids, |_: &Vec<Vec<SimpleBid>>| 0).unwrap();
    let second = vcg_auction_with_tiebreaker(&items, &bids, |_: &Vec<Vec<SimpleBid>>| 0).unwrap();
    assert_eq!(first.winning_bids, second.winning_bids);
    assert_eq!(first.payments, second.payments);
}

/// An out-of-range tie-break index yields no result for the whole call.
#[test]
fn invalid_tiebreak_index() {
    let items = vec![("chair".to_string(), 1)];
    let bids = vec![
        vec![bid("Alice", 10, &[("chair", 1)])],
        vec![bid("Bob", 10, &[("chair", 1)])],
    ];
    let result = vcg_auction_with_tiebreaker(&items, &bids, |_: &Vec<Vec<SimpleBid>>| 99);
    assert!(result.is_none());
}

/// The random tiebreak always picks one of the tied outcomes, so a tied
/// auction still returns a winner.
#[test]
fn random_tiebreak_in_range() {
    let items = vec![("chair".to_string(), 1)];
    let bids = vec![
        vec![bid("Alice", 10, &[("chair", 1)])],
        vec![bid("Bob", 10, &[("chair", 1)])],
    ];
    for _ in 0..20 {
        let result = vcg_auction(&items, &bids).unwrap();
        assert_eq!(result.winning_bids.len(), 1);
        let name = &result.winning_bids[0].name;
        assert!(name.as_str() == "Alice" || name.as_str() == "Bob");
        assert_eq!(result.payments, vec![(name.clone(), 10)]);
    }
}

/// A demand for an item that is not in the stock is not constrained by it.
#[test]
fn unknown_item_is_unconstrained() {
    let items = vec![("chair".to_string(), 1)];
    let bids = vec![vec![bid("Alice", 5, &[("table", 4)])]];
    let result = vcg_auction(&items, &bids).unwrap();
    assert_eq!(result.winning_bids, vec![bids[0][0].clone()]);
    assert_eq!(result.payments, vec![("Alice".to_string(), 0)]);
}

/// The accessors hand back exactly what the bid was built from.
#[test]
fn bid_accessors() {
    let b = SimpleBid::new(
        "Alice".to_string(),
        7,
        vec![("chair".to_string(), 2), ("table".to_string(), 1)],
    );
    assert_eq!(b.bidder_name(), &"Alice".to_string());
    assert_eq!(b.bid_value(), 7);
    assert_eq!(
        b.bid_items(),
        &vec![("chair".to_string(), 2), ("table".to_string(), 1)]
    );
}
