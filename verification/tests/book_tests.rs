use spotbook::book::OrderBook;
use spotbook::book::PriceLevel;
use spotbook::book::Side;
use spotbook::book::BookSide;

fn lvl(price: u64, quantity: u64) -> PriceLevel {
    PriceLevel { price, quantity }
}

fn prices(v: &[PriceLevel]) -> Vec<(u64, u64)> {
    v.iter().map(|l| (l.price, l.quantity)).collect()
}

#[test]
fn empty_book_top_is_empty() {
    let book = OrderBook::new();
    let (asks, bids) = book.top(10);
    assert!(asks.is_empty());
    assert!(bids.is_empty());
}

#[test]
fn snapshot_sorts_each_side_its_own_way() {
    let mut book = OrderBook::new();
    let asks = vec![lvl(102, 3), lvl(101, 2), lvl(103, 4)];
    let bids = vec![lvl(99, 1), lvl(100, 5), lvl(98, 2)];
    book.apply_snapshot(&asks, &bids);
    let (a, b) = book.top(10);
    assert_eq!(prices(&a), vec![(101, 2), (102, 3), (103, 4)]);
    assert_eq!(prices(&b), vec![(100, 5), (99, 1), (98, 2)]);
}

#[test]
fn snapshot_dedups_later_entry_wins() {
    let mut book = OrderBook::new();
    let asks = vec![lvl(101, 2), lvl(101, 7)];
    let bids = vec![lvl(100, 5), lvl(100, 1), lvl(100, 9)];
    book.apply_snapshot(&asks, &bids);
    let (a, b) = book.top(10);
    assert_eq!(prices(&a), vec![(101, 7)]);
    assert_eq!(prices(&b), vec![(100, 9)]);
}

#[test]
fn snapshot_drops_zero_quantity_entries() {
    let mut book = OrderBook::new();
    let asks = vec![lvl(101, 2), lvl(102, 0)];
    let bids = vec![lvl(100, 0)];
    book.apply_snapshot(&asks, &bids);
    let (a, b) = book.top(10);
    assert_eq!(prices(&a), vec![(101, 2)]);
    assert!(b.is_empty());
}

#[test]
fn end_to_end_scenario() {
    let mut book = OrderBook::new();
    book.apply_snapshot(&vec![lvl(101, 2), lvl(102, 3)], &vec![lvl(100, 5), lvl(99, 1)]);
    book.apply_delta(&vec![lvl(101, 0), lvl(103, 4)], &vec![lvl(100, 7)]);
    let (a, b) = book.top(10);
    assert_eq!(prices(&a), vec![(102, 3), (103, 4)]);
    assert_eq!(prices(&b), vec![(100, 7), (99, 1)]);
}

#[test]
fn replaying_a_delta_batch_changes_nothing() {
    let mut book = OrderBook::new();
    book.apply_snapshot(&vec![lvl(101, 2), lvl(102, 3)], &vec![lvl(100, 5), lvl(99, 1)]);
    let asks = vec![lvl(101, 0), lvl(103, 4), lvl(102, 9)];
    let bids = vec![lvl(100, 7), lvl(97, 2)];
    book.apply_delta(&asks, &bids);
    let (a1, b1) = book.top(100);
    book.apply_delta(&asks, &bids);
    let (a2, b2) = book.top(100);
    assert_eq!(prices(&a1), prices(&a2));
    assert_eq!(prices(&b1), prices(&b2));
}

#[test]
fn deletion_removes_exactly_one_level() {
    let mut book = OrderBook::new();
    book.apply_snapshot(
        &vec![lvl(101, 2), lvl(102, 3), lvl(103, 4)],
        &vec![],
    );
    book.apply_delta(&vec![lvl(102, 0)], &vec![]);
    let (a, _) = book.top(10);
    assert_eq!(prices(&a), vec![(101, 2), (103, 4)]);
}

#[test]
fn deleting_an_absent_price_is_a_no_op() {
    let mut book = OrderBook::new();
    book.apply_snapshot(&vec![lvl(101, 2)], &vec![lvl(100, 5)]);
    book.apply_delta(&vec![lvl(500, 0)], &vec![lvl(1, 0)]);
    let (a, b) = book.top(10);
    assert_eq!(prices(&a), vec![(101, 2)]);
    assert_eq!(prices(&b), vec![(100, 5)]);
}

#[test]
fn update_replaces_quantity_in_place() {
    let mut book = OrderBook::new();
    book.apply_snapshot(&vec![lvl(101, 2), lvl(102, 3)], &vec![]);
    book.apply_delta(&vec![lvl(101, 8)], &vec![]);
    let (a, _) = book.top(10);
    assert_eq!(prices(&a), vec![(101, 8), (102, 3)]);
}

#[test]
fn top_truncates_to_n_best_of_five_hundred() {
    let mut book = OrderBook::new();
    let mut asks: Vec<PriceLevel> = Vec::new();
    let mut bids: Vec<PriceLevel> = Vec::new();
    // scrambled: even prices rising, then odd prices falling
    for p in 0..250u64 {
        asks.push(lvl(1000 + 2 * p, p + 1));
        bids.push(lvl(1000 + 2 * p, p + 1));
    }
    for p in 0..250u64 {
        asks.push(lvl(1999 - 2 * p, p + 1));
        bids.push(lvl(1999 - 2 * p, p + 1));
    }
    book.apply_snapshot(&asks, &bids);
    let (a, b) = book.top(10);
    assert_eq!(a.len(), 10);
    assert_eq!(b.len(), 10);
    let best_asks: Vec<u64> = (0..10u64).map(|i| 1000 + 2 * i).collect();
    let best_bids: Vec<u64> = (0..10u64).map(|i| 1999 - 2 * i).collect();
    assert_eq!(a.iter().map(|l| l.price).collect::<Vec<u64>>(), best_asks);
    assert_eq!(b.iter().map(|l| l.price).collect::<Vec<u64>>(), best_bids);
}

#[test]
fn sides_stay_sorted_and_unique_through_mixed_deltas() {
    let mut side = BookSide::new(Side::Ask);
    side.apply_deltas(&vec![lvl(5, 1), lvl(3, 1), lvl(9, 1), lvl(3, 2), lvl(7, 1)]);
    side.apply_deltas(&vec![lvl(3, 0), lvl(6, 4), lvl(1, 1)]);
    let levels = side.top(100);
    let ps: Vec<u64> = levels.iter().map(|l| l.price).collect();
    assert_eq!(ps, vec![1, 5, 6, 7, 9]);
    let mut sorted = ps.clone();
    sorted.sort();
    sorted.dedup();
    assert_eq!(ps, sorted);
}

#[test]
fn bid_side_orders_descending() {
    let mut side = BookSide::new(Side::Bid);
    side.apply_deltas(&vec![lvl(5, 1), lvl(9, 1), lvl(7, 1)]);
    let ps: Vec<u64> = side.top(100).iter().map(|l| l.price).collect();
    assert_eq!(ps, vec![9, 7, 5]);
}

#[test]
fn snapshot_fully_replaces_prior_state() {
    let mut book = OrderBook::new();
    book.apply_snapshot(&vec![lvl(101, 2), lvl(102, 3)], &vec![lvl(100, 5)]);
    book.apply_delta(&vec![lvl(104, 6)], &vec![lvl(98, 2)]);
    book.apply_snapshot(&vec![lvl(200, 1)], &vec![lvl(199, 1)]);
    let (a, b) = book.top(100);
    assert_eq!(prices(&a), vec![(200, 1)]);
    assert_eq!(prices(&b), vec![(199, 1)]);
}
