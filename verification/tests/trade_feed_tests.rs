use spotbook::book::OrderBook;
use spotbook::book::PriceLevel;
use spotbook::feed::process_event;
use spotbook::feed::FeedEvent;
use spotbook::feed::Routed;
use spotbook::trade::Direction;
use spotbook::trade::TradeTracker;

fn lvl(price: u64, quantity: u64) -> PriceLevel {
    PriceLevel { price, quantity }
}

#[test]
fn tracker_starts_neutral() {
    let t = TradeTracker::new();
    assert!(t.last_price.is_none());
    assert_eq!(t.direction, Direction::Unknown);
}

#[test]
fn direction_signals_up_unchanged_down() {
    let mut t = TradeTracker::new();
    let first = t.observe_trade(100);
    assert_eq!(first, Direction::Unknown);
    let signals = [t.observe_trade(105), t.observe_trade(105), t.observe_trade(95)];
    assert_eq!(signals, [Direction::Up, Direction::Unchanged, Direction::Down]);
}

#[test]
fn equal_print_retains_prior_arrow() {
    let mut t = TradeTracker::new();
    t.observe_trade(100);
    t.observe_trade(105);
    assert_eq!(t.direction, Direction::Up);
    t.observe_trade(105);
    assert_eq!(t.direction, Direction::Up);
    assert_eq!(t.last_price, Some(105));
}

#[test]
fn first_print_keeps_neutral_indicator() {
    let mut t = TradeTracker::new();
    t.observe_trade(100);
    assert_eq!(t.direction, Direction::Unknown);
    assert_eq!(t.last_price, Some(100));
}

#[test]
fn routing_dispatches_and_says_when_to_redraw() {
    let mut book = OrderBook::new();
    let mut tracker = TradeTracker::new();

    let r = process_event(&mut book, &mut tracker, FeedEvent::Other);
    assert_eq!(r, Routed::Skip);

    let r = process_event(
        &mut book,
        &mut tracker,
        FeedEvent::Snapshot { asks: vec![lvl(101, 2)], bids: vec![lvl(100, 5)] },
    );
    assert_eq!(r, Routed::Render);

    let r = process_event(
        &mut book,
        &mut tracker,
        FeedEvent::Delta { asks: vec![lvl(101, 0)], bids: vec![] },
    );
    assert_eq!(r, Routed::Render);
    let (a, b) = book.top(10);
    assert!(a.is_empty());
    assert_eq!(b.len(), 1);

    let r = process_event(&mut book, &mut tracker, FeedEvent::Trade { price: 42 });
    assert_eq!(r, Routed::Render);
    assert_eq!(tracker.last_price, Some(42));
}

#[test]
fn delta_before_snapshot_is_dropped_with_a_warning() {
    let mut book = OrderBook::new();
    let mut tracker = TradeTracker::new();
    let r = process_event(
        &mut book,
        &mut tracker,
        FeedEvent::Delta { asks: vec![lvl(101, 2)], bids: vec![lvl(100, 5)] },
    );
    assert_eq!(r, Routed::EarlyDelta);
    let (a, b) = book.top(10);
    assert!(a.is_empty());
    assert!(b.is_empty());
}
