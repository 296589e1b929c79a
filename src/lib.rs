//! Deferred-command and aggregation engine that drives parameter values on the
//! nodes of an external, non-reentrant control surface.
//!
//! Behaviours attached to entities (`Random`, `Sample`, `Apply`) run in the
//! Update phase of a tick and only queue commands. The drain that follows
//! turns each queued command, in order, into an [`Effect`]: what the caller,
//! holding exclusive access to the surface, must do there. Parameter values
//! are fixed-point integers with [`UNIT`] units to one.

pub mod aggregate;
pub mod commands;
pub mod components;
pub mod laws;
pub mod text;
pub mod timer;
pub mod world;

pub use aggregate::Grouping;
pub use commands::{ApplyCommand, Effect, RandomCommand, SampleCommand, TDCommand, TDCommandQueue};
pub use components::{Apply, Entity, Random, Sample, SampleValues, Strat};
pub use timer::{RepeatingTimer, TimerView};
pub use world::{random_value, PyWorld, RANDOM_PARAM, RANDOM_RANGE, UNIT};
