//! Last-trade tracking: the latest traded price and the direction of
//! the last strict move.
//!
//! Each print yields a signal relative to the previous print: `Down`
//! when strictly lower, `Up` when strictly higher, `Unchanged` when
//! equal, and `Unknown` for the very first print, which carries no
//! signal.  The stored indicator starts neutral (`Unknown`) and only a
//! strict move replaces it, so an equal price retains the prior arrow.

use vstd::prelude::*;

verus! {

/// The directional signal of a trade print, or the stored indicator.
#[derive(Clone, Copy, PartialEq, Eq, Structural, Debug)]
pub enum Direction {
    Up,
    Down,
    Unchanged,
    Unknown,
}

/// Tracks the last traded price and the direction of the last move.
pub struct TradeTracker {
    pub last_price: Option<u64>,
    pub direction: Direction,
}

impl TradeTracker {
    /// The signal a print at `price` carries after a last price of
    /// `prev`: strictly lower means `Down`, strictly higher `Up`,
    /// equal `Unchanged`; the first print has no signal.
    pub open spec fn signal_of(prev: Option<u64>, price: u64) -> Direction {
        match prev {
            Option::None => Direction::Unknown,
            Option::Some(lp) => if price < lp {
                Direction::Down
            } else if price > lp {
                Direction::Up
            } else {
                Direction::Unchanged
            },
        }
    }

    /// The stored indicator after a print with signal `sig`: a strict
    /// move replaces it, anything else retains the prior indicator.
    pub open spec fn next_direction(prev_dir: Direction, sig: Direction) -> Direction {
        match sig {
            Direction::Up => Direction::Up,
            Direction::Down => Direction::Down,
            Direction::Unchanged => prev_dir,
            Direction::Unknown => prev_dir,
        }
    }

    /// Before any print: no last price and a neutral indicator.
    pub fn new() -> (r: TradeTracker)
        ensures
            r.last_price.is_none(),
            r.direction == Direction::Unknown,
    {
        TradeTracker { last_price: None, direction: Direction::Unknown }
    }

    /// Observes one trade print and returns its signal; the print's
    /// price becomes the last price, and the indicator follows
    /// `next_direction`.
    pub fn observe_trade(&mut self, price: u64) -> (sig: Direction)
        ensures
            sig == Self::signal_of(old(self).last_price, price),
            final(self).last_price == Some(price),
            final(self).direction == Self::next_direction(old(self).direction, sig),
    {
        let sig = match self.last_price {
            None => Direction::Unknown,
            Some(lp) => if price < lp {
                Direction::Down
            } else if price > lp {
                Direction::Up
            } else {
                Direction::Unchanged
            },
        };
        match sig {
            Direction::Up => {
                self.direction = Direction::Up;
            },
            Direction::Down => {
                self.direction = Direction::Down;
            },
            Direction::Unchanged => {},
            Direction::Unknown => {},
        }
        self.last_price = Some(price);
        sig
    }
}

} // verus!
