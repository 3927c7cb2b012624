use crate::agent::{Agent, AgentStore};
use crate::field::{grid_shape, Location, MapData, MapDimensions};
use vstd::prelude::*;

verus! {

/// The first coordinate an agent at `c` with vision `v` may look at.
pub open spec fn window_low(c: u32, v: u32) -> int {
    if c > v {
        c - v
    } else {
        0
    }
}

/// One past the last coordinate an agent at `c` with vision `v` may look at,
/// on an axis of length `bound`.
pub open spec fn window_high(c: u32, v: u32, bound: u32) -> int {
    if c + v > bound {
        bound as int
    } else {
        c + v
    }
}

/// The cells of the agent's row within its window, left to right.
pub open spec fn row_cells(dims: MapDimensions, at: Location, v: u32) -> Seq<Location> {
    let lo = window_low(at.x, v);
    let hi = window_high(at.x, v, dims.width);
    Seq::new(
        if hi > lo {
            (hi - lo) as nat
        } else {
            0
        },
        |i: int| Location { x: (lo + i) as u32, y: at.y },
    )
}

/// The cells of the agent's column within its window, bottom to top.
pub open spec fn column_cells(dims: MapDimensions, at: Location, v: u32) -> Seq<Location> {
    let lo = window_low(at.y, v);
    let hi = window_high(at.y, v, dims.height);
    Seq::new(
        if hi > lo {
            (hi - lo) as nat
        } else {
            0
        },
        |i: int| Location { x: at.x, y: (lo + i) as u32 },
    )
}

/// Every cell an agent looks at, in the order it looks: its row, then its
/// column. The pattern is a cross, not a square.
pub open spec fn candidates(dims: MapDimensions, at: Location, v: u32) -> Seq<Location> {
    row_cells(dims, at, v) + column_cells(dims, at, v)
}

/// The running best `(quantity, cell)` after looking at `c`: `c` takes over
/// only if nobody stood on it at the start of the tick and it holds strictly
/// more than the best so far.
pub open spec fn look_at(
    best: (u32, Location),
    cells: Seq<Seq<u32>>,
    occupied: Seq<Location>,
    c: Location,
) -> (u32, Location) {
    if !occupied.contains(c) && cells[c.x as int][c.y as int] > best.0 {
        (cells[c.x as int][c.y as int], c)
    } else {
        best
    }
}

/// The best `(quantity, cell)` after looking at `cands` in order, starting
/// from quantity 0 at `(0, 0)`.
pub open spec fn scan(cells: Seq<Seq<u32>>, occupied: Seq<Location>, cands: Seq<Location>) -> (
    u32,
    Location,
)
    decreases cands.len(),
{
    if cands.len() == 0 {
        (0, Location { x: 0, y: 0 })
    } else {
        look_at(scan(cells, occupied, cands.drop_last()), cells, occupied, cands.last())
    }
}

/// Where an agent at `at` with vision `v` goes. With no free cell holding
/// sugar in sight, that is `(0, 0)`.
pub open spec fn destination(
    cells: Seq<Seq<u32>>,
    dims: MapDimensions,
    occupied: Seq<Location>,
    at: Location,
    v: u32,
) -> Location {
    scan(cells, occupied, candidates(dims, at, v)).1
}

/// Every cell an agent on the field looks at lies on the field: the window is
/// clipped at each edge and never wraps.
pub proof fn lemma_candidates_in_bounds(dims: MapDimensions, at: Location, v: u32)
    requires
        dims.contains_spec(at.x as int, at.y as int),
    ensures
        forall|i: int|
            0 <= i < candidates(dims, at, v).len() ==> dims.contains_spec(
                #[trigger] candidates(dims, at, v)[i].x as int,
                candidates(dims, at, v)[i].y as int,
            ),
{
    let r = row_cells(dims, at, v);
    let c = column_cells(dims, at, v);
    assert forall|i: int| 0 <= i < candidates(dims, at, v).len() implies dims.contains_spec(
        #[trigger] candidates(dims, at, v)[i].x as int,
        candidates(dims, at, v)[i].y as int,
    ) by {
        if i < r.len() {
            assert(candidates(dims, at, v)[i] == r[i]);
        } else {
            assert(candidates(dims, at, v)[i] == c[i - r.len()]);
        }
    }
}

/// The scan ends on `(0, 0)` or on one of the cells it looked at.
pub proof fn lemma_scan_picks_candidate(
    cells: Seq<Seq<u32>>,
    occupied: Seq<Location>,
    cands: Seq<Location>,
)
    ensures
        scan(cells, occupied, cands).1 == (Location { x: 0, y: 0 }) || cands.contains(
            scan(cells, occupied, cands).1,
        ),
    decreases cands.len(),
{
    if cands.len() > 0 {
        lemma_scan_picks_candidate(cells, occupied, cands.drop_last());
        let prev = scan(cells, occupied, cands.drop_last()).1;
        if cands.drop_last().contains(prev) {
            let k = choose|k: int| 0 <= k < cands.drop_last().len() && cands.drop_last()[k] == prev;
            assert(cands[k] == prev);
        }
        assert(cands[cands.len() - 1] == cands.last());
    }
}

/// An agent on the field always chooses a cell on the field.
pub proof fn lemma_destination_in_bounds(
    cells: Seq<Seq<u32>>,
    dims: MapDimensions,
    occupied: Seq<Location>,
    at: Location,
    v: u32,
)
    requires
        dims.contains_spec(at.x as int, at.y as int),
    ensures
        dims.contains_spec(
            destination(cells, dims, occupied, at, v).x as int,
            destination(cells, dims, occupied, at, v).y as int,
        ),
{
    lemma_candidates_in_bounds(dims, at, v);
    lemma_scan_picks_candidate(cells, occupied, candidates(dims, at, v));
}

/// Whether the cell `c` may be chosen: nobody stood on it when the tick began.
pub open spec fn is_free(occupied: Seq<Location>, c: Location) -> bool {
    !occupied.contains(c)
}

/// The quantity the scan reads at `c`.
pub open spec fn sugar_of(cells: Seq<Seq<u32>>, c: Location) -> u32 {
    cells[c.x as int][c.y as int]
}

/// What the scan settles on, stated without the scan: no free cell looked at
/// holds more than the best quantity; a best of zero leaves `(0, 0)`; and a
/// positive best is found at the first free cell that holds it, every free
/// cell before it holding strictly less.
pub proof fn lemma_scan_first_maximum(
    cells: Seq<Seq<u32>>,
    occupied: Seq<Location>,
    cands: Seq<Location>,
)
    ensures
        ({
            let (q, d) = scan(cells, occupied, cands);
            &&& forall|j: int|
                0 <= j < cands.len() && is_free(occupied, #[trigger] cands[j]) ==> sugar_of(
                    cells,
                    cands[j],
                ) <= q
            &&& q == 0 ==> d == (Location { x: 0, y: 0 })
            &&& q > 0 ==> exists|i: int|
                0 <= i < cands.len() && #[trigger] cands[i] == d && is_free(occupied, d)
                    && sugar_of(cells, d) == q && forall|j: int|
                    0 <= j < i && is_free(occupied, #[trigger] cands[j]) ==> sugar_of(
                        cells,
                        cands[j],
                    ) < q
        }),
    decreases cands.len(),
{
    if cands.len() > 0 {
        let rest = cands.drop_last();
        let n = cands.len() - 1;
        lemma_scan_first_maximum(cells, occupied, rest);
        let (q0, d0) = scan(cells, occupied, rest);
        let (q, d) = scan(cells, occupied, cands);
        assert(cands.last() == cands[n]);
        assert forall|j: int| 0 <= j < n implies rest[j] == cands[j] by {}
        if is_free(occupied, cands[n]) && sugar_of(cells, cands[n]) > q0 {
            assert(cands[n] == d);
        } else if q > 0 {
            let i = choose|i: int|
                0 <= i < rest.len() && #[trigger] rest[i] == d0 && is_free(occupied, d0)
                    && sugar_of(cells, d0) == q0 && forall|j: int|
                    0 <= j < i && is_free(occupied, #[trigger] rest[j]) ==> sugar_of(
                        cells,
                        rest[j],
                    ) < q0;
            assert(cands[i] == d);
        }
    }
}

/// When no free cell in sight holds any sugar, the scan keeps its starting
/// point: quantity 0 at `(0, 0)`.
pub proof fn lemma_scan_without_sugar(
    cells: Seq<Seq<u32>>,
    occupied: Seq<Location>,
    cands: Seq<Location>,
)
    requires
        forall|i: int|
            0 <= i < cands.len() && !occupied.contains(#[trigger] cands[i]) ==> cells[cands[i].x as int][cands[i].y as int]
                == 0,
    ensures
        scan(cells, occupied, cands) == (0u32, Location { x: 0, y: 0 }),
    decreases cands.len(),
{
    if cands.len() > 0 {
        let rest = cands.drop_last();
        assert forall|i: int|
            0 <= i < rest.len() && !occupied.contains(#[trigger] rest[i]) implies cells[rest[i].x as int][rest[i].y as int]
                == 0 by {
            assert(rest[i] == cands[i]);
        }
        lemma_scan_without_sugar(cells, occupied, rest);
        assert(cands.last() == cands[cands.len() - 1]);
    }
}

/// An agent whose whole visible cross holds no sugar on any free cell goes to
/// `(0, 0)`, not to its own cell.
pub proof fn lemma_no_sugar_in_sight_goes_to_origin(
    cells: Seq<Seq<u32>>,
    dims: MapDimensions,
    occupied: Seq<Location>,
    at: Location,
    v: u32,
)
    requires
        forall|i: int|
            0 <= i < candidates(dims, at, v).len() && !occupied.contains(
                #[trigger] candidates(dims, at, v)[i],
            ) ==> cells[candidates(dims, at, v)[i].x as int][candidates(dims, at, v)[i].y as int]
                == 0,
    ensures
        destination(cells, dims, occupied, at, v) == (Location { x: 0, y: 0 }),
{
    lemma_scan_without_sugar(cells, occupied, candidates(dims, at, v));
}

/// Where each agent stood when the tick began, in visiting order. It does not
/// follow the agents as they move during the tick.
pub struct Snapshot {
    positions: Vec<Location>,
}

impl View for Snapshot {
    type V = Seq<Location>;

    closed spec fn view(&self) -> Seq<Location> {
        self.positions@
    }
}

/// The locations of `agents`, in order.
pub open spec fn positions(agents: Seq<Agent>) -> Seq<Location> {
    agents.map_values(|a: Agent| a.location)
}

impl Snapshot {
    /// Records where every agent of `store` stands now.
    pub fn of(store: &AgentStore) -> (r: Snapshot)
        ensures
            r@ == positions(store@),
    {
        let mut out: Vec<Location> = Vec::new();
        let n = store.len();
        let mut i: usize = 0;
        while i < n
            invariant
                n == store@.len(),
                i <= n,
                out@ == positions(store@.take(i as int)),
            decreases n - i,
        {
            out.push(store.agent(i).location);
            assert(store@.take(i as int + 1) == store@.take(i as int).push(store@[i as int]));
            i = i + 1;
            assert(out@ =~= positions(store@.take(i as int)));
        }
        assert(store@.take(n as int) =~= store@);
        Snapshot { positions: out }
    }

    /// Whether some agent stood on `(x, y)` when the snapshot was taken.
    pub fn is_occupied(&self, x: u32, y: u32) -> (r: bool)
        ensures
            r == self@.contains(Location { x, y }),
    {
        let mut i: usize = 0;
        while i < self.positions.len()
            invariant
                i <= self.positions@.len(),
                forall|k: int| 0 <= k < i ==> self.positions@[k] != (Location { x, y }),
            decreases self.positions@.len() - i,
        {
            if self.positions[i].x == x && self.positions[i].y == y {
                assert(self.positions@[i as int] == Location { x, y });
                return true;
            }
            i = i + 1;
        }
        false
    }
}

proof fn lemma_scan_extend(
    cells: Seq<Seq<u32>>,
    occupied: Seq<Location>,
    cands: Seq<Location>,
    k: int,
)
    requires
        0 <= k < cands.len(),
    ensures
        scan(cells, occupied, cands.take(k + 1)) == look_at(
            scan(cells, occupied, cands.take(k)),
            cells,
            occupied,
            cands[k],
        ),
{
    assert(cands.take(k + 1).drop_last() =~= cands.take(k));
}

/// The cell `agent` moves to this tick: among the free cells of its row, then
/// of its column, within its vision, the first that holds the most sugar,
/// provided that is more than zero; otherwise `(0, 0)`.
pub fn choose_destination(field: &MapData, snapshot: &Snapshot, agent: &Agent) -> (r: Location)
    requires
        field.wf(),
        field.dims_spec().contains_spec(agent.location.x as int, agent.location.y as int),
    ensures
        r == destination(
            field@,
            field.dims_spec(),
            snapshot@,
            agent.location,
            agent.vision.0,
        ),
        field.dims_spec().contains_spec(r.x as int, r.y as int),
{
    let dims = field.dims();
    let at = agent.location;
    let v = agent.vision.0;
    proof {
        field.lemma_wf_shape();
        lemma_candidates_in_bounds(dims, at, v);
        lemma_destination_in_bounds(field@, dims, snapshot@, at, v);
    }
    let ghost cands = candidates(dims, at, v);
    let ghost row = row_cells(dims, at, v);
    let x_lo: u32 = if at.x > v { at.x - v } else { 0 };
    let x_hi: u32 = if at.x as u64 + v as u64 > dims.width as u64 { dims.width } else { at.x + v };
    let y_lo: u32 = if at.y > v { at.y - v } else { 0 };
    let y_hi: u32 = if at.y as u64 + v as u64 > dims.height as u64 { dims.height } else { at.y + v };
    let mut best: u32 = 0;
    let mut dest = Location { x: 0, y: 0 };
    assert(cands.take(0) =~= Seq::<Location>::empty());
    let mut nx: u32 = x_lo;
    while nx < x_hi
        invariant
            field.wf(),
            dims == field.dims_spec(),
            grid_shape(field@, dims),
            cands == candidates(dims, at, v),
            row == row_cells(dims, at, v),
            x_lo == window_low(at.x, v),
            x_hi == window_high(at.x, v, dims.width),
            x_lo <= nx <= x_hi,
            forall|i: int|
                0 <= i < cands.len() ==> dims.contains_spec(
                    #[trigger] cands[i].x as int,
                    cands[i].y as int,
                ),
            (best, dest) == scan(field@, snapshot@, cands.take(nx - x_lo)),
        decreases x_hi - nx,
    {
        let ghost k = (nx - x_lo) as int;
        assert(cands[k] == row[k]);
        proof {
            lemma_scan_extend(field@, snapshot@, cands, k);
        }
        if !snapshot.is_occupied(nx, at.y) {
            let q = field.sugar_at(nx, at.y);
            if q > best {
                best = q;
                dest = Location { x: nx, y: at.y };
            }
        }
        nx = nx + 1;
    }
    let ghost n_row = row.len() as int;
    let mut ny: u32 = y_lo;
    while ny < y_hi
        invariant
            field.wf(),
            dims == field.dims_spec(),
            grid_shape(field@, dims),
            cands == candidates(dims, at, v),
            row == row_cells(dims, at, v),
            n_row == row.len(),
            y_lo == window_low(at.y, v),
            y_hi == window_high(at.y, v, dims.height),
            y_lo <= ny <= y_hi,
            forall|i: int|
                0 <= i < cands.len() ==> dims.contains_spec(
                    #[trigger] cands[i].x as int,
                    cands[i].y as int,
                ),
            (best, dest) == scan(field@, snapshot@, cands.take(n_row + ny - y_lo)),
        decreases y_hi - ny,
    {
        let ghost k = n_row + (ny - y_lo) as int;
        assert(cands[k] == column_cells(dims, at, v)[k - n_row]);
        proof {
            lemma_scan_extend(field@, snapshot@, cands, k);
        }
        if !snapshot.is_occupied(at.x, ny) {
            let q = field.sugar_at(at.x, ny);
            if q > best {
                best = q;
                dest = Location { x: at.x, y: ny };
            }
        }
        ny = ny + 1;
    }
    assert(cands.take(cands.len() as int) =~= cands);
    dest
}

} // verus!
