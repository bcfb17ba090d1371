//! Event routing: one decoded feed event in, one routing verdict out.
//!
//! Snapshots and deltas go to the book, trades to the tracker, and any
//! unrecognized event is ignored.  A delta that arrives before the
//! first snapshot is dropped whole and reported through the verdict,
//! never applied to an unseeded book: the caller is expected to warn
//! visibly, and the book stays empty until a snapshot defines the base.
//! The verdict also says whether the display is to be redrawn, which it
//! is after every recognized event and after a dropped early delta
//! (whose warning replaces the redraw), but not after an ignored one.

use vstd::prelude::*;
use crate::book::delta_fold;
use crate::book::OrderBook;
use crate::book::PriceLevel;
use crate::trade::TradeTracker;

verus! {

/// One decoded feed event, already parsed into fixed-point levels.
pub enum FeedEvent {
    /// A full replacement of both sides.
    Snapshot { asks: Vec<PriceLevel>, bids: Vec<PriceLevel> },
    /// An incremental change to both sides.
    Delta { asks: Vec<PriceLevel>, bids: Vec<PriceLevel> },
    /// One trade print.
    Trade { price: u64 },
    /// Anything the feed sends that the core does not consume.
    Other,
}

/// What became of one event.
#[derive(Clone, Copy, PartialEq, Eq, Structural, Debug)]
pub enum Routed {
    /// The event changed the view: redraw it.
    Render,
    /// The event was ignored: leave the display alone.
    Skip,
    /// A delta arrived before any snapshot and was dropped: warn.
    EarlyDelta,
}

/// Routes one decoded event to the book or the tracker and says
/// whether to redraw.
pub fn process_event(book: &mut OrderBook, tracker: &mut TradeTracker, ev: FeedEvent) -> (r:
    Routed)
    requires
        old(book).wf(),
    ensures
        final(book).wf(),
        match ev {
            FeedEvent::Snapshot { asks, bids } => {
                &&& r == Routed::Render
                &&& final(book).seeded
                &&& final(book).asks.contents() == delta_fold(Map::<u64, u64>::empty(), asks@)
                &&& final(book).bids.contents() == delta_fold(Map::<u64, u64>::empty(), bids@)
                &&& *final(tracker) == *old(tracker)
            },
            FeedEvent::Delta { asks, bids } => if old(book).seeded {
                &&& r == Routed::Render
                &&& final(book).seeded
                &&& final(book).asks.contents() == delta_fold(old(book).asks.contents(), asks@)
                &&& final(book).bids.contents() == delta_fold(old(book).bids.contents(), bids@)
                &&& *final(tracker) == *old(tracker)
            } else {
                &&& r == Routed::EarlyDelta
                &&& *final(book) == *old(book)
                &&& *final(tracker) == *old(tracker)
            },
            FeedEvent::Trade { price } => {
                &&& r == Routed::Render
                &&& *final(book) == *old(book)
                &&& final(tracker).last_price == Some(price)
                &&& final(tracker).direction == TradeTracker::next_direction(
                    old(tracker).direction,
                    TradeTracker::signal_of(old(tracker).last_price, price),
                )
            },
            FeedEvent::Other => {
                &&& r == Routed::Skip
                &&& *final(book) == *old(book)
                &&& *final(tracker) == *old(tracker)
            },
        },
{
    match ev {
        FeedEvent::Snapshot { asks, bids } => {
            book.apply_snapshot(&asks, &bids);
            Routed::Render
        },
        FeedEvent::Delta { asks, bids } => {
            if book.seeded {
                book.apply_delta(&asks, &bids);
                Routed::Render
            } else {
                Routed::EarlyDelta
            }
        },
        FeedEvent::Trade { price } => {
            tracker.observe_trade(price);
            Routed::Render
        },
        FeedEvent::Other => Routed::Skip,
    }
}

} // verus!
