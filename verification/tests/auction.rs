use vcg_auction::types::SimpleBid;
use vcg_auction::vcg_auction;
use vcg_auction::vcg_auction_with_tiebreaker;

fn bid(name: &str, value: u64, items: &[(&str, u64)]) -> SimpleBid {
    SimpleBid::new(
        name.to_string(),
        value,
        items.iter().map(|(id, q)| (id.to_string(), *q)).collect(),
    )
}

#[test]
fn simple_bid_simple_case() {
    let items = vec![("chair".to_string(), 2)];
    let bids = vec![
        vec![bid("Alice", 5, &[("chair", 1)]), bid("Alice", 7, &[("chair", 2)])],
        vec![bid("Bob", 4, &[("chair", 1)])],
    ];
    let result = vcg_auction(&items, &bids).unwrap();
    assert_eq!(result.winning_bids, vec![bids[0][0].clone(), bids[1][0].clone()]);
    assert_eq!(
        result.payments,
        vec![("Alice".to_string(), 0), ("Bob".to_string(), 2)]
    );
}

#[test]
fn vickrey_case() {
    let items = vec![("chair".to_string(), 1)];
    let bids = vec![
        vec![bid("Alice", 10, &[("chair", 1)])],
        vec![bid("Bob", 20, &[("chair", 1)])],
    ];
    let result = vcg_auction(&items, &bids).unwrap();
    assert_eq!(result.winning_bids, vec![bids[1][0].clone()]);
    assert_eq!(result.payments, vec![("Bob".to_string(), 10)]);
}

#[test]
fn simple_simple_case() {
    let items = vec![("chair".to_string(), 2)];
    let bids = vec![
        vec![bid("Alice", 5, &[("chair", 1)]), bid("Alice", 7, &[("chair", 2)])],
        vec![bid("Bob", 4, &[("chair", 1)])],
    ];
    let result = vcg_auction(&items, &bids).unwrap();
    assert_eq!(result.winning_bids, vec![bids[0][0].clone(), bids[1][0].clone()]);
    assert_eq!(
        result.payments,
        vec![("Alice".to_string(), 0), ("Bob".to_string(), 2)]
    );
}

#[test]
fn non_exclusive_bids() {
    let items = vec![("chair".to_string(), 1), ("table".to_string(), 1)];
    let bids = vec![
        vec![bid("Alice", 5, &[("chair", 1)])],
        vec![bid("Alice", 10, &[("table", 1)])],
        vec![bid("Bob", 20, &[("chair", 1), ("table", 1)])],
    ];
    let result = vcg_auction(&items, &bids).unwrap();
    assert_eq!(result.winning_bids, vec![bids[2][0].clone()]);
    assert_eq!(result.payments, vec![("Bob".to_string(), 15)]);
}

/// Example from the Wikipedia page
#[test]
fn wikipedia_example() {
    let items = vec![("apple".to_string(), 2)];
    let bids = vec![
        vec![bid("Alice", 5, &[("apple", 1)])],
        vec![bid("Bob", 2, &[("apple", 1)])],
        vec![bid("Carol", 6, &[("apple", 2)])],
    ];
    let result = vcg_auction(&items, &bids).unwrap();
    assert_eq!(result.winning_bids, vec![bids[0][0].clone(), bids[1][0].clone()]);
    assert_eq!(
        result.payments,
        vec![("Alice".to_string(), 4), ("Bob".to_string(), 1)]
    );
}

#[test]
fn mutually_exclusive_bidders() {
    let items = vec![("chair".to_string(), 2)];
    let bids = vec![
        vec![bid("Alice", 5, &[("chair", 1)])],
        vec![bid("Bob", 4, &[("chair", 1)]), bid("Carol", 3, &[("chair", 1)])],
    ];
    let result = vcg_auction(&items, &bids).unwrap();
    assert_eq!(result.winning_bids, vec![bids[0][0].clone(), bids[1][0].clone()]);
    assert_eq!(
        result.payments,
        vec![("Alice".to_string(), 0), ("Bob".to_string(), 3)]
    );
}

#[test]
fn no_valid_bids() {
    let items = vec![("apple".to_string(), 2)];
    let no_bid_cases: &[Vec<Vec<SimpleBid>>] = &[
        vec![],
        vec![vec![]],
        vec![vec![], vec![]],
        // Alice wants 3 apples, but only 2 are available
        vec![vec![bid("Alice", 5, &[("apple", 3)])]],
    ];
    for no_bid_case in no_bid_cases {
        let result = vcg_auction(&items, no_bid_case).unwrap();
        assert!(result.winning_bids.is_empty());
        assert!(result.payments.is_empty());
    }
}

#[test]
fn simple_tiebreaker() {
    let items = vec![("chair".to_string(), 1)];
    let bids = vec![
        vec![bid("Alice", 10, &[("chair", 1)])],
        vec![bid("Bob", 10, &[("chair", 1)])],
    ];
    // tiebreak favors Bob
    let tiebreak = |_: &Vec<Vec<SimpleBid>>| 1;
    let result = vcg_auction_with_tiebreaker(&items, &bids, tiebreak).unwrap();
    assert_eq!(result.winning_bids, vec![bids[1][0].clone()]);
    assert_eq!(result.payments, vec![("Bob".to_string(), 10)]);
}

#[test]
fn unrelated_bids_same_bidder() {
    let items = vec![("chair".to_string(), 2), ("table".to_string(), 1)];
    let bids = vec![
        // Alice wants the chairs and the table independently of each other
        vec![bid("Alice", 10, &[("chair", 2)])],
        vec![bid("Alice", 5, &[("table", 1)])],
        vec![bid("Bob", 4, &[("table", 1)])],
    ];
    let result = vcg_auction(&items, &bids).unwrap();
    assert_eq!(result.winning_bids, vec![bids[0][0].clone(), bids[1][0].clone()]);
    assert_eq!(result.payments, vec![("Alice".to_string(), 4)]);
}
