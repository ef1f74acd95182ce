//! The opacity value of one node and its transitions.

use crate::fixed::rate;
use crate::fixed::speed_between;
use crate::fixed::UNIT;
use vstd::prelude::*;

verus! {

/// The mathematical state of an opacity value.
pub struct OpacityState {
    /// The value in effect now.
    pub current: int,
    /// The value that the interpolation moves to.
    pub target: int,
    /// Units per tick, signed; zero when nothing moves.
    pub speed: int,
    /// Whether arriving at or below zero asks for the node's removal.
    pub despawns: bool,
}

impl OpacityState {
    /// The state that rests at `opacity`.
    pub open spec fn resting(opacity: int) -> OpacityState {
        OpacityState { current: opacity, target: opacity, speed: 0, despawns: false }
    }

    /// The state after a fade in over `duration` ticks was asked for.
    pub open spec fn fade_in(self, duration: int) -> OpacityState {
        OpacityState {
            current: self.current,
            target: UNIT as int,
            speed: rate(UNIT as int, duration),
            despawns: false,
        }
    }

    /// The state after a fade out over `duration` ticks was asked for.
    pub open spec fn fade_out(self, duration: int) -> OpacityState {
        OpacityState {
            current: self.current,
            target: 0,
            speed: rate(-(UNIT as int), duration),
            despawns: true,
        }
    }

    /// The state after a movement to `opacity` was asked for that is to
    /// arrive after `duration` ticks.
    pub open spec fn interpolate_to(self, opacity: int, duration: int) -> OpacityState {
        OpacityState {
            current: self.current,
            target: opacity,
            speed: rate(opacity - self.current, duration),
            despawns: false,
        }
    }

    /// The state after a movement to `opacity` was asked for at the speed
    /// that crosses the whole range from zero to `UNIT` in `duration` ticks:
    /// upward to a target above the current value, downward to one below
    /// it, and at rest where the value is at the target already.
    pub open spec fn interpolate_by_speed(self, opacity: int, duration: int) -> OpacityState {
        OpacityState {
            current: self.current,
            target: opacity,
            speed: if opacity > self.current {
                rate(UNIT as int, duration)
            } else if opacity < self.current {
                rate(-(UNIT as int), duration)
            } else {
                0
            },
            despawns: false,
        }
    }

    /// The state that has arrived at its target.
    pub open spec fn settled(self) -> OpacityState {
        OpacityState {
            current: self.target,
            target: self.target,
            speed: 0,
            despawns: self.despawns,
        }
    }

    /// The state with the current value replaced.
    pub open spec fn moved_to(self, current: int) -> OpacityState {
        OpacityState { current, target: self.target, speed: self.speed, despawns: self.despawns }
    }

    /// The state after `dt` ticks have passed. A resting state stays as it
    /// is. A moving one advances by `speed * dt`; where that carries it to
    /// its target or past it, it settles there, so that a value rests
    /// exactly when it has arrived.
    pub open spec fn step(self, dt: nat) -> OpacityState {
        let moved = self.current + self.speed * dt;
        if self.speed == 0 {
            self
        } else if self.speed > 0 {
            if moved >= self.target {
                self.settled()
            } else {
                self.moved_to(moved)
            }
        } else {
            if moved <= self.target {
                self.settled()
            } else {
                self.moved_to(moved)
            }
        }
    }

    /// Whether the step of `dt` ticks from this state asks for the removal
    /// of the node: the state was moving, it despawns, and the step leaves
    /// it at or below zero.
    pub open spec fn requests_removal(self, dt: nat) -> bool {
        self.speed != 0 && self.despawns && self.step(dt).current <= 0
    }
}

/// The opacity of a node and of its children.
#[derive(Debug, Clone, Copy, PartialEq, Eq, PartialOrd)]
pub struct Opacity {
    current: i64,
    target: i64,
    speed: i64,
    despawns: bool,
}

impl View for Opacity {
    type V = OpacityState;

    closed spec fn view(&self) -> OpacityState {
        OpacityState {
            current: self.current as int,
            target: self.target as int,
            speed: self.speed as int,
            despawns: self.despawns,
        }
    }
}

impl Opacity {
    /// The value that rests at zero.
    pub fn invisible() -> (r: Opacity)
        ensures
            r@ == OpacityState::resting(0),
    {
        Opacity::new(0)
    }

    /// The value that rests at `UNIT`.
    pub fn opaque() -> (r: Opacity)
        ensures
            r@ == OpacityState::resting(UNIT as int),
    {
        Opacity::new(UNIT)
    }

    /// Creates a value that rests at `opacity`.
    pub fn new(opacity: i64) -> (r: Opacity)
        ensures
            r@ == OpacityState::resting(opacity as int),
    {
        Opacity { current: opacity, target: opacity, speed: 0, despawns: false }
    }

    /// Returns the current value.
    pub fn get(&self) -> (r: i64)
        ensures
            r == self@.current,
    {
        self.current
    }

    /// Returns the target value.
    pub fn get_target(&self) -> (r: i64)
        ensures
            r == self@.target,
    {
        self.target
    }

    /// Sets the value, which cancels an interpolation or a fade out.
    pub fn set(&mut self, opacity: i64)
        ensures
            final(self)@ == OpacityState::resting(opacity as int),
    {
        *self = Opacity::new(opacity)
    }

    /// Whether the current value is at least `UNIT`.
    pub fn is_opaque(&self) -> (r: bool)
        ensures
            r == (self@.current >= UNIT),
    {
        self.current >= UNIT
    }

    /// Whether the current value is above zero.
    pub fn is_visible(&self) -> (r: bool)
        ensures
            r == (self@.current > 0),
    {
        self.current > 0
    }

    /// Whether the current value is zero or below.
    pub fn is_invisible(&self) -> (r: bool)
        ensures
            r == (self@.current <= 0),
    {
        self.current <= 0
    }

    /// Whether a fade out was asked for and no other transition since.
    pub fn is_despawning(&self) -> (r: bool)
        ensures
            r == self@.despawns,
    {
        self.despawns
    }

    /// Creates a value at zero that fades in over `time` ticks.
    pub fn new_fade_in(time: u64) -> (r: Opacity)
        requires
            time > 0,
        ensures
            r@ == OpacityState::resting(0).fade_in(time as int),
    {
        Opacity { current: 0, target: UNIT, speed: speed_between(0, UNIT, time), despawns: false }
    }

    /// The same value, fading in over `time` ticks.
    pub fn and_fade_in(self, time: u64) -> (r: Opacity)
        requires
            time > 0,
        ensures
            r@ == self@.fade_in(time as int),
    {
        let mut faded = self;
        faded.fade_in(time);
        faded
    }

    /// Moves to `UNIT` over `time` ticks.
    pub fn fade_in(&mut self, time: u64)
        requires
            time > 0,
        ensures
            final(self)@ == old(self)@.fade_in(time as int),
    {
        self.target = UNIT;
        self.despawns = false;
        self.speed = speed_between(0, UNIT, time);
    }

    /// Moves to zero over `time` ticks and asks for the node's removal on
    /// arrival. Another transition before that cancels the removal.
    pub fn fade_out(&mut self, time: u64)
        requires
            time > 0,
        ensures
            final(self)@ == old(self)@.fade_out(time as int),
    {
        self.target = 0;
        self.despawns = true;
        self.speed = speed_between(UNIT, 0, time);
    }

    /// Moves to `opacity`, to arrive after `time` ticks.
    pub fn interpolate_to(&mut self, opacity: i64, time: u64)
        requires
            time > 0,
        ensures
            final(self)@ == old(self)@.interpolate_to(opacity as int, time as int),
    {
        self.target = opacity;
        self.despawns = false;
        self.speed = speed_between(self.current, opacity, time);
    }

    /// Moves to `opacity` at the speed that crosses the whole range from
    /// zero to `UNIT` in `time_zero_to_one` ticks. Unlike `interpolate_to`,
    /// the time given is not the time of arrival.
    pub fn interpolate_by_speed(&mut self, opacity: i64, time_zero_to_one: u64)
        requires
            time_zero_to_one > 0,
        ensures
            final(self)@ == old(self)@.interpolate_by_speed(
                opacity as int,
                time_zero_to_one as int,
            ),
    {
        self.target = opacity;
        self.despawns = false;
        self.speed = if opacity > self.current {
            speed_between(0, UNIT, time_zero_to_one)
        } else if opacity < self.current {
            speed_between(UNIT, 0, time_zero_to_one)
        } else {
            0
        };
    }

    /// Advances the value by `dt` ticks and tells whether the node's
    /// removal is to be requested.
    pub fn step(&mut self, dt: u64) -> (remove: bool)
        ensures
            final(self)@ == old(self)@.step(dt as nat),
            remove == old(self)@.requests_removal(dt as nat),
    {
        if self.speed == 0 {
            return false;
        }
        assert(i64::MIN * u64::MAX <= self.speed * dt <= i64::MAX * u64::MAX
            && (self.speed > 0 ==> self.speed * dt >= 0)
            && (self.speed < 0 ==> self.speed * dt <= 0)) by (nonlinear_arith)
            requires
                i64::MIN <= self.speed <= i64::MAX,
                0 <= dt <= u64::MAX,
        ;
        let moved: i128 = (self.current as i128) + (self.speed as i128) * (dt as i128);
        if self.speed > 0 {
            if moved >= self.target as i128 {
                self.current = self.target;
                self.speed = 0;
            } else {
                self.current = moved as i64;
            }
        } else {
            if moved <= self.target as i128 {
                self.current = self.target;
                self.speed = 0;
            } else {
                self.current = moved as i64;
            }
        }
        self.despawns && self.current <= 0
    }
}

impl Default for Opacity {
    /// A node is fully opaque unless told otherwise: what carries no
    /// explicit value is shown, not hidden.
    fn default() -> (r: Opacity)
        ensures
            r@ == OpacityState::resting(UNIT as int),
    {
        Opacity::new(UNIT)
    }
}

} // verus!
