//! What systems are handed when they run: borrowed resources, the markers
//! that tell system functions apart by their parameters, and the data
//! accesses of the simulation's own systems.
use vstd::prelude::*;
use std::marker::PhantomData;
use crate::access::{AccessType, DataAccess, SystemAccess};

verus! {

/// A resource lent to a system for reading.
pub struct Res<'a, T> {
    value: &'a T,
}

impl<'a, T> Res<'a, T> {
    /// Lends `value` for reading.
    pub fn new(value: &'a T) -> (r: Self)
        ensures
            *r.get() == *value,
    {
        Res { value }
    }

    /// The lent resource.
    #[verifier::when_used_as_spec(spec_get)]
    pub fn get(&self) -> (r: &T)
        ensures
            *r == *self.spec_get(),
    {
        self.value
    }

    /// The lent resource.
    pub closed spec fn spec_get(&self) -> &T {
        self.value
    }
}

/// A resource lent to a system for reading and writing.
pub struct ResMut<'a, T> {
    value: &'a mut T,
}

impl<'a, T> ResMut<'a, T> {
    /// Lends `value` for reading and writing.
    pub fn new(value: &'a mut T) -> (r: Self)
        ensures
            r.current() == *old(value),
    {
        ResMut { value }
    }

    /// The resource as it is now.
    pub closed spec fn current(&self) -> T {
        *self.value
    }

    /// The lent resource, for reading.
    pub fn get(&self) -> (r: &T)
        ensures
            *r == self.current(),
    {
        self.value
    }

    /// The lent resource, for writing.
    pub fn get_mut(&mut self) -> (r: &mut T)
        ensures
            *r == old(self).current(),
            final(self).current() == *final(r),
    {
        self.value
    }
}

/// The state kept for a parameter that reads a resource of type `T`.
pub struct ResState<T>(pub PhantomData<T>);

/// The state kept for a parameter that writes a resource of type `T`.
pub struct ResMutState<T>(pub PhantomData<T>);

/// Marks a system function of one parameter.
pub struct SystemParamFunction<F, P1>(pub PhantomData<(F, P1)>);

/// Marks a system function of two parameters.
pub struct SystemParamFunction2<F, P1, P2>(pub PhantomData<(F, P1, P2)>);

/// Marks a system function of three parameters.
pub struct SystemParamFunction3<F, P1, P2, P3>(pub PhantomData<(F, P1, P2, P3)>);

/// Marks a system function of four parameters.
pub struct SystemParamFunction4<F, P1, P2, P3, P4>(pub PhantomData<(F, P1, P2, P3, P4)>);

fn moving_access(position: u64, delta_time: u64) -> (r: SystemAccess)
    ensures
        r.component_access@ == seq![DataAccess { type_id: position, access_type: AccessType::Write }],
        r.resource_access@ == seq![DataAccess { type_id: delta_time, access_type: AccessType::Read }],
{
    let a = SystemAccess::new();
    let b = a.with_component(position, AccessType::Write);
    let c = b.with_resource(delta_time, AccessType::Read);
    proof {
        assert(c.component_access@ =~= seq![DataAccess { type_id: position, access_type: AccessType::Write }]);
        assert(c.resource_access@ =~= seq![DataAccess { type_id: delta_time, access_type: AccessType::Read }]);
    }
    c
}

/// Moves every position a little at random each frame.
pub struct RandomMovementSystem;

impl RandomMovementSystem {
    /// Writes the positions (component `position`) and reads the frame
    /// time (resource `delta_time`).
    pub fn access(&self, position: u64, delta_time: u64) -> (r: SystemAccess)
        ensures
            r.component_access@ == seq![DataAccess { type_id: position, access_type: AccessType::Write }],
            r.resource_access@ == seq![DataAccess { type_id: delta_time, access_type: AccessType::Read }],
    {
        moving_access(position, delta_time)
    }
}

/// Moves every position a little at random, in frames where the frame time
/// is known.
pub struct ResourceUsingSystem;

impl ResourceUsingSystem {
    /// Writes the positions (component `position`) and reads the frame
    /// time (resource `delta_time`).
    pub fn access(&self, position: u64, delta_time: u64) -> (r: SystemAccess)
        ensures
            r.component_access@ == seq![DataAccess { type_id: position, access_type: AccessType::Write }],
            r.resource_access@ == seq![DataAccess { type_id: delta_time, access_type: AccessType::Read }],
    {
        moving_access(position, delta_time)
    }
}

/// The identifier of a particle.
#[derive(PartialEq, Eq, Structural, Debug, Clone, Copy)]
pub struct ParticleId(pub usize);

/// What an ant is doing.
#[derive(PartialEq, Eq, Structural, Debug, Clone, Copy)]
pub enum AntState {
    Foraging,
    ReturningToNest,
}

/// Marks the nest.
#[derive(PartialEq, Eq, Structural, Debug, Clone, Copy)]
pub struct Nest;

/// Marks a source of food.
#[derive(PartialEq, Eq, Structural, Debug, Clone, Copy)]
pub struct FoodSource;

/// The kinds of pheromone trail.
#[derive(PartialEq, Eq, Structural, Debug, Clone, Copy)]
pub enum PheromoneType {
    FoodTrail,
    HomeTrail,
}

} // verus!
