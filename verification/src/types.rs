//! A simple bid type using strings for bidder and item names, and unsigned
//! integers for bid values and item quantities.

use vstd::prelude::*;

verus! {

/// Mathematical view of a bid: the bidder's name, the bid's value, and the
/// demanded (item, quantity) pairs, all as sequences and plain integers.
pub ghost struct BidView {
    pub name: Seq<char>,
    pub value: u64,
    pub items: Seq<(Seq<char>, u64)>,
}

/// A bid: a bidder name, a value offered, and a list of (item name, quantity)
/// pairs demanded together for that value.
#[derive(PartialEq, Eq, Hash, Debug)]
pub struct SimpleBid {
    pub name: String,
    pub value: u64,
    pub items: Vec<(String, u64)>,
}

/// The view of one demand entry: the item name as a character sequence,
/// together with the quantity.
pub open spec fn item_view(entry: (String, u64)) -> (Seq<char>, u64) {
    (entry.0@, entry.1)
}

impl View for SimpleBid {
    type V = BidView;

    open spec fn view(&self) -> BidView {
        BidView {
            name: self.name@,
            value: self.value,
            items: self.items@.map_values(|entry: (String, u64)| item_view(entry)),
        }
    }
}

impl Clone for SimpleBid {
    fn clone(&self) -> (r: Self)
        ensures
            r@ == self@,
    {
        let mut items: Vec<(String, u64)> = Vec::new();
        let mut i: usize = 0;
        while i < self.items.len()
            invariant
                i <= self.items.len(),
                items@.len() == i as int,
                forall|j: int| 0 <= j < i ==> items@[j].0@ == self.items@[j].0@,
                forall|j: int| 0 <= j < i ==> items@[j].1 == self.items@[j].1,
            decreases self.items.len() - i,
        {
            let (id, qty) = (&self.items[i].0, self.items[i].1);
            items.push((id.clone(), qty));
            i += 1;
        }
        let r = SimpleBid { name: self.name.clone(), value: self.value, items };
        proof {
            assert(r@.items =~= self@.items);
        }
        r
    }
}

impl SimpleBid {
    /// Build a bid from a bidder name, a value, and the demanded items.
    pub fn new(name: String, value: u64, items: Vec<(String, u64)>) -> (r: Self)
        ensures
            r@ == (BidView {
                name: name@,
                value: value,
                items: items@.map_values(|entry: (String, u64)| item_view(entry)),
            }),
    {
        SimpleBid { name, value, items }
    }

    /// The name of the bidder.
    pub fn bidder_name(&self) -> (r: &String)
        ensures
            r@ == self@.name,
    {
        &self.name
    }

    /// The value of the bid.
    pub fn bid_value(&self) -> (r: u64)
        ensures
            r == self@.value,
    {
        self.value
    }

    /// The items that are bid on, with their quantities.
    pub fn bid_items(&self) -> (r: &Vec<(String, u64)>)
        ensures
            r@.map_values(|entry: (String, u64)| item_view(entry)) == self@.items,
    {
        &self.items
    }
}

} // verus!
