//! Ephemeral records of in-flight visual transitions.
//!
//! An animation is immutable after creation and carries the timestamp of
//! the moment it started. Progress is recomputed from `now - start`, so
//! the render layer may poll at any cadence. Time is injected by the
//! caller as a millisecond count from a monotonic clock; the core never
//! reads a clock itself.

use vstd::prelude::*;

use crate::grid::MoveDir;
use crate::tile::Tile;

verus! {

/// How long a tile takes to glide one cell, in milliseconds.
pub const MOVING_DURATION_MS: u64 = 300;

/// How long a popped tile takes to dissolve, in milliseconds.
pub const CLEARING_DURATION_MS: u64 = 150;

/// One in-flight transition: a tile gliding one cell, or dissolving in
/// place. The tile field snapshots the piece as it was when the
/// transition began; the grid itself already holds the new state.
#[derive(Clone, Copy, Debug, PartialEq, Eq, Structural)]
pub enum Animation {
    Moving { tile: Tile, from_y: usize, from_x: usize, direction: MoveDir, start_ms: u64 },
    Clearing { tile: Tile, at_y: usize, at_x: usize, start_ms: u64 },
}

impl Animation {
    /// When the transition began.
    pub open spec fn spec_start(self) -> u64 {
        match self {
            Animation::Moving { start_ms, .. } => start_ms,
            Animation::Clearing { start_ms, .. } => start_ms,
        }
    }

    /// How long the transition runs.
    pub open spec fn spec_duration(self) -> u64 {
        match self {
            Animation::Moving { .. } => MOVING_DURATION_MS,
            Animation::Clearing { .. } => CLEARING_DURATION_MS,
        }
    }

    /// Still in flight at `now_ms`: strictly before start plus duration.
    pub open spec fn spec_is_active(self, now_ms: u64) -> bool {
        (now_ms as int) < self.spec_start() + self.spec_duration()
    }

    /// The coordinates the transition plays at: its origin cell.
    pub open spec fn spec_coords(self) -> (int, int) {
        match self {
            Animation::Moving { from_y, from_x, .. } => (from_y as int, from_x as int),
            Animation::Clearing { at_y, at_x, .. } => (at_y as int, at_x as int),
        }
    }

    /// The cell a moving tile glides toward, one step along its direction,
    /// clamped at the coordinate range like the executable arithmetic.
    pub open spec fn spec_target(self) -> Option<(int, int)> {
        match self {
            Animation::Moving { from_y, from_x, direction, .. } => {
                let y = from_y as int;
                let x = from_x as int;
                match direction {
                    MoveDir::Up => Some((if y == 0 { 0int } else { y - 1 }, x)),
                    MoveDir::Down => Some(
                        (if y == usize::MAX { usize::MAX as int } else { y + 1 }, x),
                    ),
                    MoveDir::Left => Some((y, if x == 0 { 0int } else { x - 1 })),
                    MoveDir::Right => Some(
                        (y, if x == usize::MAX { usize::MAX as int } else { x + 1 }),
                    ),
                }
            },
            Animation::Clearing { .. } => None,
        }
    }

    /// Elapsed share of the duration in thousandths, clamped to 0..=1000.
    pub open spec fn spec_progress_permille(self, now_ms: u64) -> int {
        if now_ms <= self.spec_start() {
            0
        } else if now_ms - self.spec_start() >= self.spec_duration() {
            1000
        } else {
            (now_ms - self.spec_start()) * 1000 / (self.spec_duration() as int)
        }
    }

    pub fn duration(&self) -> (d: u64)
        ensures
            d == self.spec_duration(),
    {
        match self {
            Animation::Moving { .. } => MOVING_DURATION_MS,
            Animation::Clearing { .. } => CLEARING_DURATION_MS,
        }
    }

    pub fn get_start_time(&self) -> (s: u64)
        ensures
            s == self.spec_start(),
    {
        match self {
            Animation::Moving { start_ms, .. } => *start_ms,
            Animation::Clearing { start_ms, .. } => *start_ms,
        }
    }

    pub fn is_active(&self, now_ms: u64) -> (r: bool)
        ensures
            r == self.spec_is_active(now_ms),
    {
        let start = self.get_start_time();
        if now_ms < start {
            true
        } else {
            now_ms - start < self.duration()
        }
    }

    /// The target cell of a moving transition, `None` for a clearing one.
    pub fn get_target(&self) -> (r: Option<(usize, usize)>)
        ensures
            match r {
                Some(c) => self.spec_target() == Some((c.0 as int, c.1 as int)),
                None => self.spec_target() is None,
            },
    {
        match self {
            Animation::Moving { from_y, from_x, direction, .. } => {
                let y = *from_y;
                let x = *from_x;
                match direction {
                    MoveDir::Up => Some((if y == 0 { 0 } else { y - 1 }, x)),
                    MoveDir::Down => Some((if y == usize::MAX { usize::MAX } else { y + 1 }, x)),
                    MoveDir::Left => Some((y, if x == 0 { 0 } else { x - 1 })),
                    MoveDir::Right => Some((y, if x == usize::MAX { usize::MAX } else { x + 1 })),
                }
            },
            Animation::Clearing { .. } => None,
        }
    }

    /// Every cell the transition touches: its origin, and for a moving
    /// tile also the distinct target cell.
    pub fn get_coords(&self) -> (r: Vec<(usize, usize)>)
        ensures
            r@.len() >= 1,
            (r@[0].0 as int, r@[0].1 as int) == self.spec_coords(),
            match self.spec_target() {
                Some(tgt) => {
                    if tgt == self.spec_coords() {
                        r@.len() == 1
                    } else {
                        r@.len() == 2 && (r@[1].0 as int, r@[1].1 as int) == tgt
                    }
                },
                None => r@.len() == 1,
            },
    {
        let mut out: Vec<(usize, usize)> = Vec::new();
        match self {
            Animation::Moving { from_y, from_x, .. } => {
                out.push((*from_y, *from_x));
                if let Some(tgt) = self.get_target() {
                    if !(tgt.0 == *from_y && tgt.1 == *from_x) {
                        out.push(tgt);
                    }
                }
            },
            Animation::Clearing { at_y, at_x, .. } => {
                out.push((*at_y, *at_x));
            },
        }
        out
    }

    /// Raw linear progress at `now_ms`, in thousandths.
    pub fn get_progress_permille(&self, now_ms: u64) -> (p: u64)
        ensures
            p == self.spec_progress_permille(now_ms),
            p <= 1000,
    {
        let start = self.get_start_time();
        let dur = self.duration();
        if now_ms <= start {
            0
        } else if now_ms - start >= dur {
            1000
        } else {
            let elapsed = now_ms - start;
            proof {
                assert(elapsed * 1000 / (dur as int) <= 1000) by (nonlinear_arith)
                    requires
                        0 < dur,
                        0 <= elapsed < dur,
                {}
            }
            elapsed * 1000 / dur
        }
    }

    /// Progress through a quartic ease-out curve, in thousandths.
    pub fn get_quartic_out_permille(&self, now_ms: u64) -> (q: u64)
        ensures
            q == 1000 - ({
                let r = 1000 - self.spec_progress_permille(now_ms);
                r * r * r * r / 1000000000
            }),
    {
        let p = self.get_progress_permille(now_ms);
        let r = 1000 - p;
        proof {
            assert(r * r <= 1000000 && r * r * r <= 1000000000 && r * r * r * r
                <= 1000000000000 && r * r * r * r / 1000000000 <= 1000) by (nonlinear_arith)
                requires
                    0 <= r <= 1000,
            {}
        }
        1000 - (r * r * r * r) / 1000000000
    }

    /// Progress through a quadratic ease-out curve, in thousandths.
    pub fn get_quadratic_out_permille(&self, now_ms: u64) -> (q: u64)
        ensures
            q == ({
                let p = self.spec_progress_permille(now_ms);
                p * (2000 - p) / 1000
            }),
    {
        let p = self.get_progress_permille(now_ms);
        proof {
            assert(p * (2000 - p) <= 2000000) by (nonlinear_arith)
                requires
                    0 <= p <= 1000,
            {}
        }
        p * (2000 - p) / 1000
    }
}

} // verus!
