//! A controller that approaches a target within limits of acceleration and
//! speed.

use crate::scalar::Scalar;
use crate::single::{Single, Vec2};
use vstd::prelude::*;

verus! {

/// Nearer than this the target is reached: 0.05 m.
pub const REACHED: u64 = 0x3fa9_9999_9999_999a;

/// Nearer than this the speed is proportional to the distance: 0.5 m.
pub const NEAR: u64 = 0x3fe0_0000_0000_0000;

/// The speed near the target, for each metre of distance: 4.
pub const NEAR_GAIN: u64 = 0x4010_0000_0000_0000;

/// A vector no longer than this has no direction: 0.001.
pub const NO_LENGTH: u64 = 0x3f50_624d_d2f1_a9fc;

/// The number two.
pub const TWO: u64 = 0x4000_0000_0000_0000;

/// A vector in the plane, in double precision, for calculations.
#[derive(Debug, Clone, Copy, PartialEq, Eq, Structural)]
pub struct Vec2F64 {
    pub x: Scalar,
    pub y: Scalar,
}

impl Vec2F64 {
    /// A vector in double precision.
    pub open spec fn of(v: Vec2) -> Vec2F64 {
        Vec2F64 { x: v.x.widened(), y: v.y.widened() }
    }

    /// The vector in single precision.
    pub open spec fn narrowed(self) -> Vec2 {
        Vec2 { x: Single::narrowed(self.x), y: Single::narrowed(self.y) }
    }

    /// The length.
    pub open spec fn norm(self) -> Scalar {
        self.x.product(self.x).sum(self.y.product(self.y)).square_root()
    }

    /// The vector of length one in the same direction, if there is one.
    pub open spec fn unit(self) -> Vec2F64 {
        let length = self.norm();
        if (Scalar { bits: NO_LENGTH }).less(length) {
            Vec2F64 { x: self.x.quotient(length), y: self.y.quotient(length) }
        } else {
            Vec2F64 { x: Scalar::zero(), y: Scalar::zero() }
        }
    }

    /// The vector, each part multiplied by the same number.
    pub open spec fn stretched(self, factor: Scalar) -> Vec2F64 {
        Vec2F64 { x: self.x.product(factor), y: self.y.product(factor) }
    }

    /// The vector, scaled to a length where it is longer.
    pub open spec fn shortened(self, limit: Scalar) -> Vec2F64 {
        if limit.less(self.norm()) {
            self.stretched(limit.quotient(self.norm()))
        } else {
            self
        }
    }

    /// The sum of two vectors.
    pub open spec fn sum(self, other: Vec2F64) -> Vec2F64 {
        Vec2F64 { x: self.x.sum(other.x), y: self.y.sum(other.y) }
    }

    /// The difference of two vectors.
    pub open spec fn difference(self, other: Vec2F64) -> Vec2F64 {
        Vec2F64 { x: self.x.difference(other.x), y: self.y.difference(other.y) }
    }

    fn new(v: &Vec2) -> (result: Vec2F64)
        ensures
            result == Vec2F64::of(*v),
    {
        Vec2F64 { x: v.x.widen(), y: v.y.widen() }
    }

    fn to_vec2(&self) -> (result: Vec2)
        ensures
            result == self.narrowed(),
    {
        Vec2 { x: Single::narrow(&self.x), y: Single::narrow(&self.y) }
    }

    fn length(&self) -> (result: Scalar)
        ensures
            result == self.norm(),
    {
        self.x.times(&self.x).plus(&self.y.times(&self.y)).root()
    }

    fn normalize(&self) -> (result: Vec2F64)
        ensures
            result == self.unit(),
    {
        let length = self.length();
        let none = Scalar { bits: NO_LENGTH };
        if none.lt(&length) {
            Vec2F64 { x: self.x.over(&length), y: self.y.over(&length) }
        } else {
            Vec2F64 { x: Scalar::zero(), y: Scalar::zero() }
        }
    }

    fn scale(&self, factor: &Scalar) -> (result: Vec2F64)
        ensures
            result == self.stretched(*factor),
    {
        Vec2F64 { x: self.x.times(factor), y: self.y.times(factor) }
    }

    /// Scales the vector to a length where it is longer.
    pub fn shorten(&self, limit: &Scalar) -> (result: Vec2F64)
        ensures
            result == self.shortened(*limit),
    {
        let length = self.length();
        if limit.lt(&length) {
            self.scale(&limit.over(&length))
        } else {
            *self
        }
    }

    fn plus(&self, other: &Vec2F64) -> (result: Vec2F64)
        ensures
            result == self.sum(*other),
    {
        Vec2F64 { x: self.x.plus(&other.x), y: self.y.plus(&other.y) }
    }

    fn minus(&self, other: &Vec2F64) -> (result: Vec2F64)
        ensures
            result == self.difference(*other),
    {
        Vec2F64 { x: self.x.minus(&other.x), y: self.y.minus(&other.y) }
    }
}

/// A controller that approaches a target within limits.
#[derive(Debug, Clone, Copy, PartialEq, Eq, Structural)]
pub struct BangBangController {
    max_acceleration: Scalar,
    max_velocity: Scalar,
    current_velocity: Vec2,
}

impl BangBangController {
    /// The largest acceleration.
    pub closed spec fn acceleration_limit(self) -> Scalar {
        self.max_acceleration
    }

    /// The largest speed.
    pub closed spec fn velocity_limit(self) -> Scalar {
        self.max_velocity
    }

    /// The velocity of the last step.
    pub closed spec fn velocity(self) -> Vec2 {
        self.current_velocity
    }

    /// Whether a target at this distance is reached.
    pub open spec fn reached(distance: Scalar) -> bool {
        distance.less(Scalar { bits: REACHED })
    }

    /// The distance that it takes to stop from a speed, or to reach it from
    /// rest.
    pub open spec fn braking_distance(self, speed: Scalar) -> Scalar {
        speed.product(speed).quotient((Scalar { bits: TWO }).product(self.acceleration_limit()))
    }

    /// The speed from which a distance is enough to stop.
    pub open spec fn braking_speed(self, distance: Scalar) -> Scalar {
        (Scalar { bits: TWO }).product(self.acceleration_limit()).product(distance).square_root()
    }

    /// The distance that it takes to reach the largest speed and stop again.
    pub open spec fn profile_distance(self) -> Scalar {
        let half = self.braking_distance(self.velocity_limit());
        half.sum(half)
    }

    /// The speed to aim for: none at the target; within the distance that it
    /// takes to stop, no more than lets it stop; near the target, in proportion
    /// to the distance; else as fast as possible, gaining speed step by step
    /// where the way is too short for the whole profile.
    pub open spec fn desired_speed(
        self,
        distance: Scalar,
        current_speed: Scalar,
        dt: Scalar,
    ) -> Scalar {
        let limit = self.velocity_limit();
        if Self::reached(distance) {
            Scalar::zero()
        } else if distance.at_most(self.braking_distance(current_speed)) {
            self.braking_speed(distance).smaller(current_speed)
        } else if distance.less(Scalar { bits: NEAR }) {
            distance.product(Scalar { bits: NEAR_GAIN }).smaller(limit)
        } else if !self.profile_distance().at_most(distance) && current_speed.less(limit) {
            current_speed.sum(self.acceleration_limit().product(dt)).smaller(limit)
        } else {
            limit
        }
    }

    /// A change of velocity, scaled to what the acceleration allows in a step.
    pub open spec fn limited_change(self, change: Vec2F64, dt: Scalar) -> Vec2F64 {
        change.shortened(self.acceleration_limit().product(dt))
    }

    /// A velocity, scaled to the largest speed.
    pub open spec fn capped(self, velocity: Vec2F64) -> Vec2F64 {
        velocity.shortened(self.velocity_limit())
    }

    /// The velocity to aim for: towards the target, at the speed to aim for.
    pub open spec fn desired_velocity(
        self,
        way: Vec2F64,
        current_speed: Scalar,
        dt: Scalar,
    ) -> Vec2F64 {
        way.unit().stretched(self.desired_speed(way.norm(), current_speed, dt))
    }

    /// The velocity to aim for, as far as the acceleration allows it.
    pub open spec fn accelerated(self, way: Vec2F64, current: Vec2F64, dt: Scalar) -> Vec2F64 {
        let change = self.desired_velocity(way, current.norm(), dt).difference(current);
        current.sum(self.limited_change(change, dt))
    }

    /// The velocity to take next: none at the target, else the one to aim for
    /// as far as the acceleration allows it, at no more than the largest speed.
    pub open spec fn next_velocity(
        self,
        current_pos: Vec2,
        target_pos: Vec2,
        current_vel: Vec2,
        dt: Scalar,
    ) -> Vec2 {
        let way = Vec2F64::of(target_pos).difference(Vec2F64::of(current_pos));
        let current = Vec2F64::of(current_vel);
        if Self::reached(way.norm()) {
            Vec2::zero()
        } else {
            self.capped(self.accelerated(way, current, dt)).narrowed()
        }
    }

    /// A controller with these limits, at rest.
    pub fn new(max_acceleration: Scalar, max_velocity: Scalar) -> (result: Self)
        ensures
            result.acceleration_limit() == max_acceleration,
            result.velocity_limit() == max_velocity,
            result.velocity() == Vec2::zero(),
    {
        BangBangController { max_acceleration, max_velocity, current_velocity: Vec2::zero() }
    }

    /// Finds the next velocity and takes it.
    pub fn compute_profile(
        &mut self,
        current_pos: Vec2,
        target_pos: Vec2,
        current_vel: Vec2,
        dt: Scalar,
    ) -> (result: Vec2)
        ensures
            result == old(self).next_velocity(current_pos, target_pos, current_vel, dt),
            final(self).velocity() == result,
            final(self).acceleration_limit() == old(self).acceleration_limit(),
            final(self).velocity_limit() == old(self).velocity_limit(),
    {
        let result = self.compute_profile_with_velocity(current_pos, target_pos, current_vel, dt);
        self.current_velocity = result;
        result
    }

    /// Finds the next velocity without taking it, so that several robots can
    /// share a controller.
    pub fn compute_profile_with_velocity(
        &self,
        current_pos: Vec2,
        target_pos: Vec2,
        current_vel: Vec2,
        dt: Scalar,
    ) -> (result: Vec2)
        ensures
            result == self.next_velocity(current_pos, target_pos, current_vel, dt),
    {
        let current = Vec2F64::new(&current_vel);
        let direction = Vec2F64::new(&target_pos).minus(&Vec2F64::new(&current_pos));
        let distance = direction.length();
        let reached = Scalar { bits: REACHED };
        if distance.lt(&reached) {
            return Vec2::zero();
        }
        let desired_speed = self.compute_desired_speed(distance, current.length(), dt);
        let desired_velocity = direction.normalize().scale(&desired_speed);
        let velocity_change = desired_velocity.minus(&current);
        let max_velocity_change = self.max_acceleration.times(&dt);
        let limited_change = velocity_change.shorten(&max_velocity_change);
        let new_velocity = current.plus(&limited_change);
        let final_velocity = new_velocity.shorten(&self.max_velocity);
        final_velocity.to_vec2()
    }

    /// Finds the speed to aim for.
    pub fn compute_desired_speed(
        &self,
        distance: Scalar,
        current_speed: Scalar,
        dt: Scalar,
    ) -> (result: Scalar)
        ensures
            result == self.desired_speed(distance, current_speed, dt),
    {
        let reached = Scalar { bits: REACHED };
        let near = Scalar { bits: NEAR };
        let gain = Scalar { bits: NEAR_GAIN };
        let two = Scalar { bits: TWO };
        let double_acceleration = two.times(&self.max_acceleration);
        let stop_distance = current_speed.times(&current_speed).over(&double_acceleration);
        if distance.lt(&reached) {
            return Scalar::zero();
        }
        if distance.le(&stop_distance) {
            return double_acceleration.times(&distance).root().min(&current_speed);
        }
        if distance.lt(&near) {
            return distance.times(&gain).min(&self.max_velocity);
        }
        let acceleration_distance = self.max_velocity.times(&self.max_velocity).over(
            &double_acceleration,
        );
        let total_distance = acceleration_distance.plus(&acceleration_distance);
        if total_distance.le(&distance) {
            self.max_velocity
        } else if current_speed.lt(&self.max_velocity) {
            current_speed.plus(&self.max_acceleration.times(&dt)).min(&self.max_velocity)
        } else {
            self.max_velocity
        }
    }

    /// Comes to rest.
    pub fn reset(&mut self)
        ensures
            final(self).velocity() == Vec2::zero(),
            final(self).acceleration_limit() == old(self).acceleration_limit(),
            final(self).velocity_limit() == old(self).velocity_limit(),
    {
        self.current_velocity = Vec2::zero();
    }

    /// The velocity of the last step.
    pub fn get_current_velocity(&self) -> (result: Vec2)
        ensures
            result == self.velocity(),
    {
        self.current_velocity
    }

    /// The largest acceleration.
    pub fn get_max_acceleration(&self) -> (result: Scalar)
        ensures
            result == self.acceleration_limit(),
    {
        self.max_acceleration
    }

    /// The largest speed.
    pub fn get_max_velocity(&self) -> (result: Scalar)
        ensures
            result == self.velocity_limit(),
    {
        self.max_velocity
    }
}

/// The speed aimed for is never above the largest one, except while braking:
/// then it is not above the current one.
pub proof fn law_desired_speed_is_limited(
    controller: BangBangController,
    distance: Scalar,
    current_speed: Scalar,
    dt: Scalar,
)
    requires
        Scalar::zero().at_most(controller.velocity_limit()),
        !current_speed.nan(),
    ensures
        ({
            let speed = controller.desired_speed(distance, current_speed, dt);
            ||| speed.at_most(controller.velocity_limit())
            ||| distance.at_most(controller.braking_distance(current_speed)) && speed.at_most(
                current_speed,
            )
        }),
{
}

/// Within reach of the target the controller aims for no speed and takes no
/// velocity.
pub proof fn law_stops_at_target(
    controller: BangBangController,
    current_pos: Vec2,
    target_pos: Vec2,
    current_vel: Vec2,
    current_speed: Scalar,
    dt: Scalar,
)
    requires
        BangBangController::reached(
            Vec2F64::of(target_pos).difference(Vec2F64::of(current_pos)).norm(),
        ),
    ensures
        controller.next_velocity(current_pos, target_pos, current_vel, dt) == Vec2::zero(),
        controller.desired_speed(
            Vec2F64::of(target_pos).difference(Vec2F64::of(current_pos)).norm(),
            current_speed,
            dt,
        ) == Scalar::zero(),
{
}

} // verus!
