use crate::field::{Location, MapDimensions, SimError};
use vstd::prelude::*;

verus! {

/// An agent's label, for display.
pub struct Name(pub String);

/// How far an agent sees along its row and its column, in cells.
#[derive(Clone, Copy, Debug, PartialEq, Eq, Structural)]
pub struct Vision(pub u32);

/// Upkeep per tick: `sugar` is eaten from the cell the agent ends the tick
/// on; `spice` is carried but not used by the step.
#[derive(Clone, Copy, Debug, PartialEq, Eq, Structural)]
pub struct Metabolism {
    pub sugar: u32,
    pub spice: u32,
}

/// One forager.
pub struct Agent {
    pub name: Name,
    pub location: Location,
    pub vision: Vision,
    pub metabolism: Metabolism,
}

/// Whether every agent of `agents` stands on a field of dimensions `dims`.
pub open spec fn all_placed(agents: Seq<Agent>, dims: MapDimensions) -> bool {
    forall|i: int|
        0 <= i < agents.len() ==> dims.contains_spec(
            #[trigger] agents[i].location.x as int,
            agents[i].location.y as int,
        )
}

/// The agents in insertion order, which is the order a tick visits them in.
pub struct AgentStore {
    agents: Vec<Agent>,
}

impl View for AgentStore {
    type V = Seq<Agent>;

    closed spec fn view(&self) -> Seq<Agent> {
        self.agents@
    }
}

impl AgentStore {
    /// An empty store.
    pub fn new() -> (r: AgentStore)
        ensures
            r@ == Seq::<Agent>::empty(),
    {
        AgentStore { agents: Vec::new() }
    }

    /// Appends `agent` if it stands on a field of dimensions `dims`; else
    /// reports `OutOfBounds` at its location and keeps the store as it was.
    pub fn add_agent(&mut self, agent: Agent, dims: &MapDimensions) -> (r: Result<(), SimError>)
        ensures
            dims.contains_spec(agent.location.x as int, agent.location.y as int) ==> r == Ok::<
                (),
                SimError,
            >(()) && final(self)@ == old(self)@.push(agent),
            !dims.contains_spec(agent.location.x as int, agent.location.y as int) ==> r == Err::<
                (),
                SimError,
            >(SimError::OutOfBounds { x: agent.location.x, y: agent.location.y })
                && final(self)@ == old(self)@,
    {
        if dims.contains(agent.location.x, agent.location.y) {
            self.agents.push(agent);
            Ok(())
        } else {
            Err(SimError::OutOfBounds { x: agent.location.x, y: agent.location.y })
        }
    }

    /// The number of agents.
    pub fn len(&self) -> (r: usize)
        ensures
            r == self@.len(),
    {
        self.agents.len()
    }

    /// The agent at position `i` of the visiting order.
    pub fn agent(&self, i: usize) -> (r: &Agent)
        requires
            i < self@.len(),
        ensures
            *r == self@[i as int],
    {
        &self.agents[i]
    }

    /// Moves the agent at position `i` to `to`; nothing else changes.
    pub fn set_position(&mut self, i: usize, to: Location)
        requires
            i < old(self)@.len(),
        ensures
            final(self)@.len() == old(self)@.len(),
            final(self)@[i as int].location == to,
            final(self)@[i as int].name == old(self)@[i as int].name,
            final(self)@[i as int].vision == old(self)@[i as int].vision,
            final(self)@[i as int].metabolism == old(self)@[i as int].metabolism,
            forall|j: int| 0 <= j < old(self)@.len() && j != i ==> #[trigger] final(self)@[j] == old(self)@[j],
    {
        self.agents[i].location = to;
    }
}

} // verus!
