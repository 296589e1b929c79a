use vstd::prelude::*;

use crate::components::{pair_names, Entity};

verus! {

/// Set the node's randomized parameter to a random value.
#[derive(Debug, Clone, Copy, PartialEq, Eq, Structural)]
pub struct RandomCommand {
    pub op: Entity,
}

/// Read the node's parameters into its entity's sampled values.
#[derive(Debug, Clone, Copy, PartialEq, Eq, Structural)]
pub struct SampleCommand(pub Entity);

/// Set each named parameter of node `id` to its value.
#[derive(Debug)]
pub struct ApplyCommand {
    pub id: u32,
    pub vals: Vec<(String, i64)>,
}

/// A side effect on the external surface, captured as a value to be carried
/// out later, when the queue is drained.
#[derive(Debug)]
pub enum TDCommand {
    Random(RandomCommand),
    Sample(SampleCommand),
    Apply(ApplyCommand),
}

/// A command as plain values.
pub enum CommandView {
    Random(Entity),
    Sample(Entity),
    Apply(u32, Seq<(Seq<char>, i64)>),
}

impl TDCommand {
    pub open spec fn view(&self) -> CommandView {
        match self {
            TDCommand::Random(c) => CommandView::Random(c.op),
            TDCommand::Sample(c) => CommandView::Sample(c.0),
            TDCommand::Apply(c) => CommandView::Apply(c.id, pair_names(c.vals@)),
        }
    }
}

/// What carrying out one command asks of the external surface.
#[derive(Debug)]
pub enum Effect {
    /// Set each named parameter of node `id` to its value, in order.
    SetPars { id: u32, pars: Vec<(String, i64)> },
    /// Read the parameters of node `id` and record them for `entity`.
    FetchPars { entity: Entity, id: u32 },
    /// The command's entity is gone: nothing to do.
    Skip,
}

/// An effect as plain values.
pub enum EffectView {
    SetPars(u32, Seq<(Seq<char>, i64)>),
    FetchPars(Entity, u32),
    Skip,
}

impl Effect {
    pub open spec fn view(&self) -> EffectView {
        match self {
            Effect::SetPars { id, pars } => EffectView::SetPars(*id, pair_names(pars@)),
            Effect::FetchPars { entity, id } => EffectView::FetchPars(*entity, *id),
            Effect::Skip => EffectView::Skip,
        }
    }
}

pub open spec fn effects_view(e: Seq<Effect>) -> Seq<EffectView> {
    e.map_values(|x: Effect| x@)
}

pub open spec fn commands_view(q: Seq<TDCommand>) -> Seq<CommandView> {
    q.map_values(|c: TDCommand| c@)
}

/// Commands waiting for the next drain, oldest first.
pub struct TDCommandQueue {
    pub queue: Vec<TDCommand>,
}

impl TDCommandQueue {
    pub open spec fn view(&self) -> Seq<CommandView> {
        commands_view(self.queue@)
    }

    pub fn new() -> (r: Self)
        ensures
            r@ == Seq::<CommandView>::empty(),
    {
        TDCommandQueue { queue: Vec::new() }
    }

    /// Appends `cmd` at the tail.
    pub fn queue(&mut self, cmd: TDCommand)
        ensures
            final(self)@ == old(self)@.push(cmd@),
    {
        self.queue.push(cmd);
        assert(commands_view(self.queue@) =~= commands_view(old(self).queue@).push(cmd@));
    }

    /// Empties the queue and hands back what it held, in the order queued.
    pub fn drain(&mut self) -> (r: Vec<TDCommand>)
        ensures
            r@ == old(self).queue@,
            commands_view(r@) == old(self)@,
            final(self)@ == Seq::<CommandView>::empty(),
    {
        let mut taken: Vec<TDCommand> = Vec::new();
        std::mem::swap(&mut taken, &mut self.queue);
        assert(commands_view(self.queue@) =~= Seq::<CommandView>::empty());
        taken
    }

    pub fn len(&self) -> (r: usize)
        ensures
            r == self@.len(),
    {
        self.queue.len()
    }
}

} // verus!
