use vstd::prelude::*;

verus! {

/// An `Entity` has an update function which produces an output.
///
/// Implementors describe their behaviour with two spec functions:
/// `update_enabled` says on which inputs `update` may be called at all
/// (an implementor whose update cannot fail defines it as `true`), and
/// `update_spec` says which new entity and which output an update yields.
pub trait Entity: Sized {
    /// The output type produced by this `Entity`.
    type Output;

    /// The context of this `Entity`s update.
    type Context;

    /// Whether `update` may be applied to this entity under `context`.
    spec fn update_enabled(self, context: Self::Context) -> bool;

    /// The entity after the update, together with the output it produces.
    spec fn update_spec(self, context: Self::Context) -> (Self, Self::Output);

    /// Update this `Entity` and produce an output.
    fn update(&mut self, context: Self::Context) -> (output: Self::Output)
        requires
            old(self).update_enabled(context),
        ensures
            (*final(self), output) == old(self).update_spec(context),
    ;
}

/// An `Event` is a pending computation within the context of an event loop.
///
/// Executing an event consumes it; the execution is a pure function of the
/// event and the context it is handed, described by `execute_spec`.
/// `execute_enabled` says on which inputs execution is defined (events whose
/// execution cannot fail define it as `true`).
pub trait Event: Sized {
    /// The output type returned by this `Event`.
    type Output;

    /// The context of this `Event`s execution.
    type Context;

    /// Whether this event may be executed under `context`.
    spec fn execute_enabled(self, context: Self::Context) -> bool;

    /// The output that executing this event under `context` yields.
    spec fn execute_spec(self, context: Self::Context) -> Self::Output;

    /// Execute this `Event`.
    fn execute(self, context: Self::Context) -> (output: Self::Output)
        requires
            self.execute_enabled(context),
        ensures
            output == self.execute_spec(context),
    ;
}

} // verus!
