//! Generic mouse click tracking for double-click detection.
//!
//! Provides reusable functionality to detect double-clicks based on timing and position.
//! Can be used by any panel that needs double-click detection.

use vstd::prelude::*;
use std::time::Instant;
use vstd::std_specs::cmp::PartialEqSpec;

verus! {

/// `std::time::Instant`, a point in time; opaque here.
#[verifier::external_type_specification]
#[verifier::external_body]
pub struct ExInstant(Instant);

/// Two clicks at the same position less than this many milliseconds apart
/// make a double-click.
pub const DOUBLE_CLICK_INTERVAL_MS: u128 = 500;

/// `std::time::Instant::now`: the current time. Nothing is claimed of it.
#[verifier::external_body]
fn instant_now() -> (res: Instant) {
    Instant::now()
}

/// The whole milliseconds from `earlier` to `now` that
/// `Instant::duration_since` and `Duration::as_millis` give (zero when
/// `earlier` is later).
pub uninterp spec fn millis_since(now: Instant, earlier: Instant) -> u128;

/// `Instant::duration_since`, in whole milliseconds (`Duration::as_millis`):
/// the time from `earlier` to `now`, zero when `earlier` is later. Instants
/// are opaque here, so the contract only names the result as a function of
/// the two instants.
#[verifier::external_body]
fn millis_between(now: Instant, earlier: Instant) -> (res: u128)
    ensures
        res == millis_since(now, earlier),
{
    now.duration_since(earlier).as_millis()
}

/// Generic click tracker with configurable position type.
///
/// The position type `P` allows panels to track clicks in different ways:
/// - `usize` - single index (FileManager)
/// - `(usize, usize)` - line, column (Editor)
/// - Custom section+index types (GitStatusPanel)
#[derive(Debug, Clone, Default)]
pub struct ClickTracker<P> {
    /// Last click time.
    time: Option<Instant>,
    /// Last click position.
    position: Option<P>,
    /// Flag to skip next MouseUp event (useful after double-click selection).
    pub skip_next_up: bool,
}

/// Simple click tracker using single usize index.
pub type IndexClickTracker = ClickTracker<usize>;

/// Click tracker for line/column positions.
pub type PositionClickTracker = ClickTracker<(usize, usize)>;

impl<P: PartialEq + Clone> ClickTracker<P> {
    /// The position of the last recorded click.
    pub closed spec fn last_position_spec(&self) -> Option<P> {
        self.position
    }

    /// The time of the last recorded click.
    pub closed spec fn last_time_spec(&self) -> Option<Instant> {
        self.time
    }

    /// Whether the next mouse-up is to be skipped.
    pub closed spec fn skip_next_up_spec(&self) -> bool {
        self.skip_next_up
    }

    /// Whether a click at `position`, `elapsed_ms` milliseconds after the
    /// last recorded one, is a double-click: there is a recorded click, the
    /// interval is shorter than [`DOUBLE_CLICK_INTERVAL_MS`], and the
    /// positions are equal.
    pub open spec fn double_click_spec(&self, elapsed_ms: u128, position: P) -> bool {
        &&& self.last_time_spec() is Some
        &&& self.last_position_spec() matches Some(last)
        &&& elapsed_ms < DOUBLE_CLICK_INTERVAL_MS
        &&& last.eq_spec(&position)
    }

    /// Create a new click tracker.
    pub fn new() -> (res: Self)
        ensures
            res.last_time_spec() is None,
            res.last_position_spec() is None,
            !res.skip_next_up_spec(),
    {
        Self { time: None, position: None, skip_next_up: false }
    }

    /// Check if a click at `position`, `elapsed_ms` milliseconds after the
    /// last recorded click, is a double-click.
    pub fn is_double_click_within(&self, elapsed_ms: u128, position: &P) -> (res: bool)
        ensures
            P::obeys_eq_spec() ==> res == self.double_click_spec(elapsed_ms, *position),
            self.last_time_spec() is None || self.last_position_spec() is None ==> !res,
            elapsed_ms >= DOUBLE_CLICK_INTERVAL_MS ==> !res,
    {
        match (&self.time, &self.position) {
            (Some(_), Some(last_pos)) => elapsed_ms < DOUBLE_CLICK_INTERVAL_MS && last_pos.eq(
                position,
            ),
            _ => false,
        }
    }

    /// Check if this click is a double-click (same position within threshold).
    pub fn is_double_click(&self, position: &P) -> (res: bool)
        ensures
            P::obeys_eq_spec() && self.last_time_spec() is Some ==> exists|now: Instant|
                res == self.double_click_spec(
                    millis_since(now, self.last_time_spec().unwrap()),
                    *position,
                ),
            self.last_time_spec() is None || self.last_position_spec() is None ==> !res,
    {
        let now = instant_now();
        let res = self.is_double_click_at(now, position);
        proof {
            if P::obeys_eq_spec() && self.last_time_spec() is Some {
                assert(res == self.double_click_spec(
                    millis_since(now, self.last_time_spec().unwrap()),
                    *position,
                ));
            }
        }
        res
    }

    /// Check if click at given time and position is a double-click.
    pub fn is_double_click_at(&self, now: Instant, position: &P) -> (res: bool)
        ensures
            P::obeys_eq_spec() && self.last_time_spec() is Some ==> res == self.double_click_spec(
                millis_since(now, self.last_time_spec().unwrap()),
                *position,
            ),
            self.last_time_spec() is None || self.last_position_spec() is None ==> !res,
    {
        match self.time {
            Some(last_time) => {
                let elapsed = millis_between(now, last_time);
                let res = self.is_double_click_within(elapsed, position);
                proof {
                    if P::obeys_eq_spec() {
                        assert(res == self.double_click_spec(elapsed, *position));
                    }
                }
                res
            },
            None => false,
        }
    }

    /// Record a click at the given position (uses current time).
    pub fn record(&mut self, position: P)
        ensures
            final(self).last_time_spec() is Some,
            final(self).last_position_spec() == Some(position),
            final(self).skip_next_up_spec() == old(self).skip_next_up_spec(),
    {
        self.time = Some(instant_now());
        self.position = Some(position);
    }

    /// Record a click at the given position and time.
    pub fn record_at(&mut self, now: Instant, position: P)
        ensures
            final(self).last_time_spec() == Some(now),
            final(self).last_position_spec() == Some(position),
            final(self).skip_next_up_spec() == old(self).skip_next_up_spec(),
    {
        self.time = Some(now);
        self.position = Some(position);
    }

    /// Reset click tracking (e.g., after double-click action).
    pub fn reset(&mut self)
        ensures
            final(self).last_time_spec() is None,
            final(self).last_position_spec() is None,
            final(self).skip_next_up_spec() == old(self).skip_next_up_spec(),
    {
        self.time = None;
        self.position = None;
    }

    /// Get the last recorded position.
    pub fn last_position(&self) -> (res: Option<&P>)
        ensures
            match self.last_position_spec() {
                Some(p) => res == Some(&p),
                None => res is None,
            },
    {
        self.position.as_ref()
    }

    /// Whether the next mouse-up is to be skipped.
    pub fn skip_next_up(&self) -> (res: bool)
        ensures
            res == self.skip_next_up_spec(),
    {
        self.skip_next_up
    }

    /// Sets whether the next mouse-up is to be skipped (useful after a
    /// double-click selection); the recorded click is kept.
    pub fn set_skip_next_up(&mut self, skip: bool)
        ensures
            final(self).skip_next_up_spec() == skip,
            final(self).last_time_spec() == old(self).last_time_spec(),
            final(self).last_position_spec() == old(self).last_position_spec(),
    {
        self.skip_next_up = skip;
    }

    /// Get the last click time.
    pub fn last_time(&self) -> (res: Option<Instant>)
        ensures
            res == self.last_time_spec(),
    {
        self.time
    }
}

/// A click recorded at a position, then a click at an equal position less
/// than [`DOUBLE_CLICK_INTERVAL_MS`] later, is a double-click; a different
/// position or a longer interval is not.
pub proof fn lemma_recorded_click_decides<P: PartialEq + Clone>(
    tracker: ClickTracker<P>,
    recorded: P,
    position: P,
    elapsed_ms: u128,
)
    requires
        tracker.last_time_spec() is Some,
        tracker.last_position_spec() == Some(recorded),
    ensures
        tracker.double_click_spec(elapsed_ms, position) <==> (elapsed_ms < DOUBLE_CLICK_INTERVAL_MS
            && recorded.eq_spec(&position)),
{
}

/// After a reset no click is a double-click.
pub proof fn lemma_reset_forgets<P: PartialEq + Clone>(tracker: ClickTracker<P>, position: P, elapsed_ms: u128)
    requires
        tracker.last_time_spec() is None,
        tracker.last_position_spec() is None,
    ensures
        !tracker.double_click_spec(elapsed_ms, position),
{
}

} // verus!
