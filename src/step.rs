use crate::agent::{all_placed, Agent, AgentStore};
use crate::choice::{
    choose_destination, destination, lemma_destination_in_bounds, positions, Snapshot,
};
use crate::field::{consume_cell, Location, MapData, MapDimensions, SimError};
use vstd::prelude::*;

verus! {

/// The field and the destinations after `agents` act in order against the
/// frozen positions `occupied`: each chooses on the field as the agents
/// before it left it, moves, and eats its sugar upkeep there.
pub open spec fn tick_from(
    cells: Seq<Seq<u32>>,
    dims: MapDimensions,
    occupied: Seq<Location>,
    agents: Seq<Agent>,
) -> (Seq<Seq<u32>>, Seq<Location>)
    decreases agents.len(),
{
    if agents.len() == 0 {
        (cells, Seq::empty())
    } else {
        let before = tick_from(cells, dims, occupied, agents.drop_last());
        let a = agents.last();
        let d = destination(before.0, dims, occupied, a.location, a.vision.0);
        (consume_cell(before.0, d.x as int, d.y as int, a.metabolism.sugar), before.1.push(d))
    }
}

/// One tick: every agent acts against the positions all agents held when the
/// tick began.
pub open spec fn tick(cells: Seq<Seq<u32>>, dims: MapDimensions, agents: Seq<Agent>) -> (
    Seq<Seq<u32>>,
    Seq<Location>,
) {
    tick_from(cells, dims, positions(agents), agents)
}

/// The index of the first agent standing off the field.
pub open spec fn first_misplaced(agents: Seq<Agent>, dims: MapDimensions, i: int) -> bool {
    &&& 0 <= i < agents.len()
    &&& !dims.contains_spec(agents[i].location.x as int, agents[i].location.y as int)
    &&& all_placed(agents.take(i), dims)
}

proof fn lemma_tick_from_extend(
    cells: Seq<Seq<u32>>,
    dims: MapDimensions,
    occupied: Seq<Location>,
    agents: Seq<Agent>,
    i: int,
)
    requires
        0 <= i < agents.len(),
    ensures
        tick_from(cells, dims, occupied, agents.take(i + 1)) == ({
            let before = tick_from(cells, dims, occupied, agents.take(i));
            let a = agents[i];
            let d = destination(before.0, dims, occupied, a.location, a.vision.0);
            (consume_cell(before.0, d.x as int, d.y as int, a.metabolism.sugar), before.1.push(d))
        }),
{
    assert(agents.take(i + 1).drop_last() =~= agents.take(i));
}

proof fn lemma_tick_from_shape(
    cells: Seq<Seq<u32>>,
    dims: MapDimensions,
    occupied: Seq<Location>,
    agents: Seq<Agent>,
)
    requires
        all_placed(agents, dims),
    ensures
        tick_from(cells, dims, occupied, agents).1.len() == agents.len(),
        forall|k: int|
            0 <= k < agents.len() ==> dims.contains_spec(
                #[trigger] tick_from(cells, dims, occupied, agents).1[k].x as int,
                tick_from(cells, dims, occupied, agents).1[k].y as int,
            ),
    decreases agents.len(),
{
    if agents.len() > 0 {
        let rest = agents.drop_last();
        assert forall|i: int| 0 <= i < rest.len() implies dims.contains_spec(
            #[trigger] rest[i].location.x as int,
            rest[i].location.y as int,
        ) by {
            assert(rest[i] == agents[i]);
        }
        lemma_tick_from_shape(cells, dims, occupied, rest);
        let a = agents.last();
        assert(a == agents[agents.len() - 1]);
        lemma_destination_in_bounds(
            tick_from(cells, dims, occupied, rest).0,
            dims,
            occupied,
            a.location,
            a.vision.0,
        );
    }
}

/// After a tick every agent that started on the field is still on it.
pub proof fn lemma_tick_keeps_agents_in_bounds(
    cells: Seq<Seq<u32>>,
    dims: MapDimensions,
    agents: Seq<Agent>,
)
    requires
        all_placed(agents, dims),
    ensures
        tick(cells, dims, agents).1.len() == agents.len(),
        forall|k: int|
            0 <= k < agents.len() ==> dims.contains_spec(
                #[trigger] tick(cells, dims, agents).1[k].x as int,
                tick(cells, dims, agents).1[k].y as int,
            ),
{
    lemma_tick_from_shape(cells, dims, positions(agents), agents);
}

/// Whether two agent lists agree on everything a tick reads: position,
/// vision and metabolism, agent by agent.
pub open spec fn same_behaviour(a: Seq<Agent>, b: Seq<Agent>) -> bool {
    &&& a.len() == b.len()
    &&& forall|i: int|
        0 <= i < a.len() ==> {
            &&& (#[trigger] a[i]).location == b[i].location
            &&& a[i].vision == b[i].vision
            &&& a[i].metabolism == b[i].metabolism
        }
}

proof fn lemma_tick_from_deterministic(
    cells: Seq<Seq<u32>>,
    dims: MapDimensions,
    occupied: Seq<Location>,
    a: Seq<Agent>,
    b: Seq<Agent>,
)
    requires
        same_behaviour(a, b),
    ensures
        tick_from(cells, dims, occupied, a) == tick_from(cells, dims, occupied, b),
    decreases a.len(),
{
    if a.len() > 0 {
        assert(a.last() == a[a.len() - 1]);
        assert(b.last() == b[b.len() - 1]);
        let (ra, rb) = (a.drop_last(), b.drop_last());
        assert forall|i: int| 0 <= i < ra.len() implies {
            &&& (#[trigger] ra[i]).location == rb[i].location
            &&& ra[i].vision == rb[i].vision
            &&& ra[i].metabolism == rb[i].metabolism
        } by {
            assert(ra[i] == a[i] && rb[i] == b[i]);
        }
        lemma_tick_from_deterministic(cells, dims, occupied, ra, rb);
    }
}

/// Two ticks from the same field, over agent lists that agree on position,
/// vision and metabolism in the same order, end in the same field and the
/// same positions. Names play no part.
pub proof fn lemma_tick_deterministic(
    cells: Seq<Seq<u32>>,
    dims: MapDimensions,
    a: Seq<Agent>,
    b: Seq<Agent>,
)
    requires
        same_behaviour(a, b),
    ensures
        tick(cells, dims, a) == tick(cells, dims, b),
{
    assert(positions(a) =~= positions(b));
    lemma_tick_from_deterministic(cells, dims, positions(a), a, b);
}

proof fn lemma_tick_from_prefix(
    cells: Seq<Seq<u32>>,
    dims: MapDimensions,
    occupied: Seq<Location>,
    agents: Seq<Agent>,
    m: int,
)
    requires
        0 <= m <= agents.len(),
    ensures
        tick_from(cells, dims, occupied, agents).1.len() == agents.len(),
        forall|k: int|
            0 <= k < m ==> #[trigger] tick_from(cells, dims, occupied, agents).1[k] == tick_from(
                cells,
                dims,
                occupied,
                agents.take(m),
            ).1[k],
    decreases agents.len(),
{
    if m == agents.len() {
        assert(agents.take(m) =~= agents);
        if agents.len() > 0 {
            lemma_tick_from_prefix(cells, dims, occupied, agents.drop_last(), m - 1);
        }
    } else {
        let rest = agents.drop_last();
        assert(rest.take(m) =~= agents.take(m));
        lemma_tick_from_prefix(cells, dims, occupied, rest, m);
    }
}

/// The agent at position `i` chooses against the positions every agent held
/// when the tick began, and on the field as the agents before it left it,
/// their upkeep already eaten.
pub proof fn lemma_later_agents_see_earlier_consumption(
    cells: Seq<Seq<u32>>,
    dims: MapDimensions,
    agents: Seq<Agent>,
    i: int,
)
    requires
        0 <= i < agents.len(),
    ensures
        tick(cells, dims, agents).1[i] == destination(
            tick_from(cells, dims, positions(agents), agents.take(i)).0,
            dims,
            positions(agents),
            agents[i].location,
            agents[i].vision.0,
        ),
{
    lemma_tick_from_prefix(cells, dims, positions(agents), agents, i + 1);
    lemma_tick_from_prefix(cells, dims, positions(agents), agents.take(i + 1), i);
    lemma_tick_from_extend(cells, dims, positions(agents), agents, i);
    assert(agents.take(i + 1).take(i) =~= agents.take(i));
}

/// Advances the simulation by one tick. Before anything moves, every agent's
/// position is checked: the first one off the field is reported as
/// `OutOfBounds` and nothing changes. Otherwise the agents act in insertion
/// order as `tick` describes, each keeping its name, vision and metabolism.
pub fn simulation_step(field: &mut MapData, store: &mut AgentStore) -> (r: Result<(), SimError>)
    requires
        old(field).wf(),
    ensures
        final(field).wf(),
        final(field).dims_spec() == old(field).dims_spec(),
        final(store)@.len() == old(store)@.len(),
        all_placed(old(store)@, old(field).dims_spec()) ==> {
            &&& r == Ok::<(), SimError>(())
            &&& all_placed(final(store)@, old(field).dims_spec())
            &&& final(field)@ == tick(old(field)@, old(field).dims_spec(), old(store)@).0
            &&& forall|i: int|
                0 <= i < old(store)@.len() ==> {
                    &&& (#[trigger] final(store)@[i]).location == tick(
                        old(field)@,
                        old(field).dims_spec(),
                        old(store)@,
                    ).1[i]
                    &&& final(store)@[i].name == old(store)@[i].name
                    &&& final(store)@[i].vision == old(store)@[i].vision
                    &&& final(store)@[i].metabolism == old(store)@[i].metabolism
                }
        },
        !all_placed(old(store)@, old(field).dims_spec()) ==> {
            &&& exists|i: int|
                #![trigger old(store)@[i]]
                first_misplaced(old(store)@, old(field).dims_spec(), i) && r == Err::<(), SimError>(
                    SimError::OutOfBounds {
                        x: old(store)@[i].location.x,
                        y: old(store)@[i].location.y,
                    },
                )
            &&& final(field)@ == old(field)@
            &&& final(store)@ == old(store)@
        },
{
    let dims = field.dims();
    let n = store.len();
    let mut i: usize = 0;
    while i < n
        invariant
            field.wf(),
            field.dims_spec() == dims,
            n == store@.len(),
            i <= n,
            all_placed(store@.take(i as int), dims),
        decreases n - i,
    {
        let loc = store.agent(i).location;
        if !dims.contains(loc.x, loc.y) {
            assert(first_misplaced(store@, dims, i as int));
            assert(!all_placed(store@, dims));
            return Err(SimError::OutOfBounds { x: loc.x, y: loc.y });
        }
        assert(store@.take(i as int + 1) =~= store@.take(i as int).push(store@[i as int]));
        i = i + 1;
    }
    assert(store@.take(n as int) =~= store@);
    let ghost start = store@;
    let ghost cells0 = field@;
    let snapshot = Snapshot::of(store);
    let mut j: usize = 0;
    while j < n
        invariant
            field.wf(),
            field.dims_spec() == dims,
            n == store@.len(),
            n == start.len(),
            j <= n,
            snapshot@ == positions(start),
            all_placed(start, dims),
            all_placed(store@, dims),
            field@ == tick_from(cells0, dims, snapshot@, start.take(j as int)).0,
            tick_from(cells0, dims, snapshot@, start.take(j as int)).1.len() == j,
            forall|k: int|
                0 <= k < j ==> (#[trigger] store@[k]).location == tick_from(
                    cells0,
                    dims,
                    snapshot@,
                    start.take(j as int),
                ).1[k],
            forall|k: int| j <= k < n ==> #[trigger] store@[k] == start[k],
            forall|k: int|
                0 <= k < n ==> {
                    &&& (#[trigger] store@[k]).name == start[k].name
                    &&& store@[k].vision == start[k].vision
                    &&& store@[k].metabolism == start[k].metabolism
                },
        decreases n - j,
    {
        proof {
            lemma_tick_from_extend(cells0, dims, snapshot@, start, j as int);
        }
        let agent = store.agent(j);
        let to = choose_destination(field, &snapshot, agent);
        let upkeep = agent.metabolism.sugar;
        field.consume_at(to.x, to.y, upkeep);
        store.set_position(j, to);
        j = j + 1;
    }
    assert(start.take(n as int) =~= start);
    Ok(())
}

} // verus!
