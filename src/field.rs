use rand::rngs::StdRng;
use rand::Rng;
use vstd::prelude::*;

verus! {

/// The width and height of the field, in cells.
#[derive(Clone, Copy, Debug, PartialEq, Eq, Structural)]
pub struct MapDimensions {
    pub width: u32,
    pub height: u32,
}

/// A cell coordinate: `x` is the column, `y` the row.
#[derive(Clone, Copy, Debug, PartialEq, Eq, Structural)]
pub struct Location {
    pub x: u32,
    pub y: u32,
}

/// The resource held by one cell.
#[derive(Clone, Copy, Debug, PartialEq, Eq, Structural)]
pub struct MapLocation {
    pub sugar: u32,
}

/// The only failure of the simulation core: a coordinate outside the field.
#[derive(Clone, Copy, Debug, PartialEq, Eq, Structural)]
pub enum SimError {
    OutOfBounds { x: u32, y: u32 },
}

impl MapDimensions {
    pub open spec fn contains_spec(self, x: int, y: int) -> bool {
        0 <= x < self.width && 0 <= y < self.height
    }

    /// Whether `(x, y)` lies on a field of these dimensions.
    pub fn contains(&self, x: u32, y: u32) -> (r: bool)
        ensures
            r == self.contains_spec(x as int, y as int),
    {
        x < self.width && y < self.height
    }
}

/// What consuming `amount` leaves of `q`: the difference, clamped at zero.
pub open spec fn clamped_sub(q: u32, amount: u32) -> u32 {
    if q >= amount {
        (q - amount) as u32
    } else {
        0
    }
}

/// Consumption clamps at zero instead of wrapping: what is left is the
/// integer difference when that is not negative, and zero otherwise.
pub proof fn lemma_consumption_never_negative(q: u32, amount: u32)
    ensures
        clamped_sub(q, amount) >= 0,
        clamped_sub(q, amount) as int == if q - amount >= 0 {
            q - amount
        } else {
            0
        },
{
}

/// The grid of sugar quantities, stored column by column: `locations[x][y]`.
pub struct MapData {
    dims: MapDimensions,
    locations: Vec<Vec<MapLocation>>,
}

impl View for MapData {
    /// The quantities, indexed `[x][y]`.
    type V = Seq<Seq<u32>>;

    closed spec fn view(&self) -> Seq<Seq<u32>> {
        Seq::new(
            self.locations@.len(),
            |x: int| Seq::new(self.locations@[x]@.len(), |y: int| self.locations@[x]@[y].sugar),
        )
    }
}

/// A grid of the given dimensions, indexed `[x][y]`.
pub open spec fn grid_shape(cells: Seq<Seq<u32>>, dims: MapDimensions) -> bool {
    &&& cells.len() == dims.width
    &&& forall|x: int| 0 <= x < cells.len() ==> #[trigger] cells[x].len() == dims.height
}

/// The grid with the quantity at `(x, y)` replaced by `q`.
pub open spec fn set_cell(cells: Seq<Seq<u32>>, x: int, y: int, q: u32) -> Seq<Seq<u32>> {
    cells.update(x, cells[x].update(y, q))
}

/// The grid after `amount` is consumed at `(x, y)`.
pub open spec fn consume_cell(cells: Seq<Seq<u32>>, x: int, y: int, amount: u32) -> Seq<
    Seq<u32>,
> {
    set_cell(cells, x, y, clamped_sub(cells[x][y], amount))
}

/// rand's seedable standard generator, carried through opaquely.
#[verifier::external_type_specification]
#[verifier::external_body]
pub struct ExStdRng(StdRng);

/// Relies on rand's `Rng::gen_range` over a half-open range of `u32`, which
/// draws a value in `[0, bound)` and panics only on an empty range.
#[verifier::external_body]
fn draw_below(rng: &mut StdRng, bound: u32) -> (r: u32)
    requires
        bound > 0,
    ensures
        r < bound,
{
    rng.gen_range(0..bound)
}

impl MapData {
    pub closed spec fn dims_spec(&self) -> MapDimensions {
        self.dims
    }

    pub closed spec fn wf(&self) -> bool {
        &&& self.locations@.len() == self.dims.width
        &&& forall|x: int|
            0 <= x < self.locations@.len() ==> #[trigger] self.locations@[x]@.len()
                == self.dims.height
    }

    pub broadcast proof fn lemma_wf_shape(&self)
        requires
            #[trigger] self.wf(),
        ensures
            grid_shape(self@, self.dims_spec()),
    {
    }

    /// A field of the given dimensions with every cell empty.
    pub fn new(dims: MapDimensions) -> (r: MapData)
        ensures
            r.wf(),
            r.dims_spec() == dims,
            grid_shape(r@, dims),
            forall|x: int, y: int| dims.contains_spec(x, y) ==> #[trigger] r@[x][y] == 0,
    {
        let mut locations: Vec<Vec<MapLocation>> = Vec::new();
        let mut x: u32 = 0;
        while x < dims.width
            invariant
                x <= dims.width,
                locations@.len() == x,
                forall|i: int| 0 <= i < x ==> #[trigger] locations@[i]@.len() == dims.height,
                forall|i: int, j: int|
                    0 <= i < x && 0 <= j < dims.height ==> #[trigger] locations@[i]@[j].sugar
                        == 0,
            decreases dims.width - x,
        {
            let mut column: Vec<MapLocation> = Vec::new();
            let mut y: u32 = 0;
            while y < dims.height
                invariant
                    y <= dims.height,
                    column@.len() == y,
                    forall|j: int| 0 <= j < y ==> #[trigger] column@[j].sugar == 0,
                decreases dims.height - y,
            {
                column.push(MapLocation { sugar: 0 });
                y = y + 1;
            }
            locations.push(column);
            x = x + 1;
        }
        MapData { dims, locations }
    }

    /// The dimensions the field was made with.
    pub fn dims(&self) -> (r: MapDimensions)
        ensures
            r == self.dims_spec(),
    {
        self.dims
    }

    /// The quantity at `(x, y)`, or `OutOfBounds` off the field.
    pub fn quantity_at(&self, x: u32, y: u32) -> (r: Result<u32, SimError>)
        requires
            self.wf(),
        ensures
            self.dims_spec().contains_spec(x as int, y as int) ==> r == Ok::<u32, SimError>(
                self@[x as int][y as int],
            ),
            !self.dims_spec().contains_spec(x as int, y as int) ==> r == Err::<u32, SimError>(
                SimError::OutOfBounds { x, y },
            ),
    {
        if x < self.dims.width && y < self.dims.height {
            Ok(self.sugar_at(x, y))
        } else {
            Err(SimError::OutOfBounds { x, y })
        }
    }

    pub(crate) fn sugar_at(&self, x: u32, y: u32) -> (r: u32)
        requires
            self.wf(),
            self.dims_spec().contains_spec(x as int, y as int),
        ensures
            r == self@[x as int][y as int],
    {
        self.locations[x as usize][y as usize].sugar
    }

    /// Deducts `amount` at `(x, y)`, clamped at zero; `OutOfBounds` off the
    /// field, leaving it unchanged.
    pub fn consume(&mut self, x: u32, y: u32, amount: u32) -> (r: Result<(), SimError>)
        requires
            old(self).wf(),
        ensures
            final(self).wf(),
            final(self).dims_spec() == old(self).dims_spec(),
            old(self).dims_spec().contains_spec(x as int, y as int) ==> r == Ok::<(), SimError>(
                (),
            ) && final(self)@ == consume_cell(old(self)@, x as int, y as int, amount),
            !old(self).dims_spec().contains_spec(x as int, y as int) ==> r == Err::<
                (),
                SimError,
            >(SimError::OutOfBounds { x, y }) && final(self)@ == old(self)@,
    {
        if x < self.dims.width && y < self.dims.height {
            self.consume_at(x, y, amount);
            Ok(())
        } else {
            Err(SimError::OutOfBounds { x, y })
        }
    }

    /// Sets the quantity at `(x, y)` to `q`; `OutOfBounds` off the field,
    /// leaving it unchanged.
    pub fn set_quantity(&mut self, x: u32, y: u32, q: u32) -> (r: Result<(), SimError>)
        requires
            old(self).wf(),
        ensures
            final(self).wf(),
            final(self).dims_spec() == old(self).dims_spec(),
            old(self).dims_spec().contains_spec(x as int, y as int) ==> r == Ok::<(), SimError>(
                (),
            ) && final(self)@ == set_cell(old(self)@, x as int, y as int, q),
            !old(self).dims_spec().contains_spec(x as int, y as int) ==> r == Err::<
                (),
                SimError,
            >(SimError::OutOfBounds { x, y }) && final(self)@ == old(self)@,
    {
        if x < self.dims.width && y < self.dims.height {
            self.set_sugar(x, y, q);
            Ok(())
        } else {
            Err(SimError::OutOfBounds { x, y })
        }
    }

    pub(crate) fn consume_at(&mut self, x: u32, y: u32, amount: u32)
        requires
            old(self).wf(),
            old(self).dims_spec().contains_spec(x as int, y as int),
        ensures
            final(self).wf(),
            final(self).dims_spec() == old(self).dims_spec(),
            final(self)@ == consume_cell(old(self)@, x as int, y as int, amount),
    {
        let q = self.locations[x as usize][y as usize].sugar;
        let left: u32 = if q >= amount { q - amount } else { 0 };
        self.set_sugar(x, y, left);
    }

    fn set_sugar(&mut self, x: u32, y: u32, q: u32)
        requires
            old(self).wf(),
            old(self).dims_spec().contains_spec(x as int, y as int),
        ensures
            final(self).wf(),
            final(self).dims_spec() == old(self).dims_spec(),
            final(self)@ == set_cell(old(self)@, x as int, y as int, q),
    {
        self.locations[x as usize][y as usize].sugar = q;
        assert(self@ =~~= set_cell(old(self)@, x as int, y as int, q));
    }

    /// Overwrites every cell from `draws`, column by column and bottom to top
    /// within a column: cell `(x, y)` takes `draws[x * height + y]`. The old
    /// contents play no part.
    pub fn fill_from(&mut self, draws: &Vec<u32>)
        requires
            old(self).wf(),
            draws@.len() == old(self).dims_spec().width * old(self).dims_spec().height,
        ensures
            final(self).wf(),
            final(self).dims_spec() == old(self).dims_spec(),
            final(self)@ == grid_from(draws@, old(self).dims_spec()),
    {
        let ghost h = self.dims.height as int;
        let mut k: usize = 0;
        let mut x: u32 = 0;
        while x < self.dims.width
            invariant
                self.wf(),
                self.dims == old(self).dims,
                h == self.dims.height,
                draws@.len() == self.dims.width * h,
                x <= self.dims.width,
                k == x * h,
                forall|i: int, j: int|
                    0 <= i < x && 0 <= j < h ==> #[trigger] self@[i][j] == draws@[i * h + j],
            decreases self.dims.width - x,
        {
            let mut y: u32 = 0;
            while y < self.dims.height
                invariant
                    self.wf(),
                    self.dims == old(self).dims,
                    h == self.dims.height,
                    draws@.len() == self.dims.width * h,
                    x < self.dims.width,
                    y <= self.dims.height,
                    k == x * h + y,
                    forall|i: int, j: int|
                        0 <= i < x && 0 <= j < h ==> #[trigger] self@[i][j] == draws@[i * h
                            + j],
                    forall|j: int| 0 <= j < y ==> #[trigger] self@[x as int][j] == draws@[x * h + j],
                decreases self.dims.height - y,
            {
                proof {
                    lemma_cell_index_below(x as int, y as int, self.dims.width as int, h);
                }
                let n = draws.len();
                assert(k < n);
                let q = draws[k];
                self.set_sugar(x, y, q);
                k = k + 1;
                y = y + 1;
            }
            assert((x + 1) * h == x * h + h) by (nonlinear_arith);
            x = x + 1;
        }
        proof {
            self.lemma_wf_shape();
        }
        assert(self@ =~~= grid_from(draws@, self.dims));
    }

    /// Overwrites every cell with an independent draw in `[0, max_exclusive)`:
    /// the draws are taken in order and placed as `fill_from` places them.
    pub fn fill_random(&mut self, rng: &mut StdRng, max_exclusive: u32)
        requires
            old(self).wf(),
            max_exclusive > 0,
        ensures
            final(self).wf(),
            final(self).dims_spec() == old(self).dims_spec(),
            exists|draws: Seq<u32>|
                {
                    &&& draws.len() == old(self).dims_spec().width * old(self).dims_spec().height
                    &&& forall|i: int| 0 <= i < draws.len() ==> #[trigger] draws[i] < max_exclusive
                    &&& final(self)@ == grid_from(draws, old(self).dims_spec())
                },
            forall|x: int, y: int|
                final(self).dims_spec().contains_spec(x, y) ==> #[trigger] final(self)@[x][y]
                    < max_exclusive,
    {
        let ghost h = self.dims.height as int;
        let mut draws: Vec<u32> = Vec::new();
        let mut x: u32 = 0;
        while x < self.dims.width
            invariant
                self.dims == old(self).dims,
                h == self.dims.height,
                max_exclusive > 0,
                x <= self.dims.width,
                draws@.len() == x * h,
                forall|i: int| 0 <= i < draws@.len() ==> #[trigger] draws@[i] < max_exclusive,
            decreases self.dims.width - x,
        {
            let mut y: u32 = 0;
            while y < self.dims.height
                invariant
                    self.dims == old(self).dims,
                    h == self.dims.height,
                    max_exclusive > 0,
                    x < self.dims.width,
                    y <= self.dims.height,
                    draws@.len() == x * h + y,
                    forall|i: int| 0 <= i < draws@.len() ==> #[trigger] draws@[i] < max_exclusive,
                decreases self.dims.height - y,
            {
                let q = draw_below(rng, max_exclusive);
                draws.push(q);
                y = y + 1;
            }
            assert((x + 1) * h == x * h + h) by (nonlinear_arith);
            x = x + 1;
        }
        self.fill_from(&draws);
        proof {
            self.lemma_wf_shape();
            lemma_grid_from_bounded(draws@, self.dims, max_exclusive);
        }
    }
}

/// The grid of dimensions `dims` read from `draws` column by column: cell
/// `(x, y)` holds `draws[x * height + y]`.
pub open spec fn grid_from(draws: Seq<u32>, dims: MapDimensions) -> Seq<Seq<u32>> {
    Seq::new(
        dims.width as nat,
        |x: int| Seq::new(dims.height as nat, |y: int| draws[x * dims.height + y]),
    )
}

proof fn lemma_cell_index_below(x: int, y: int, w: int, h: int)
    requires
        0 <= x < w,
        0 <= y < h,
    ensures
        0 <= x * h + y < w * h,
{
    assert(0 <= x * h) by (nonlinear_arith)
        requires
            0 <= x,
            0 <= h,
    ;
    assert(x * h + h <= w * h) by (nonlinear_arith)
        requires
            x + 1 <= w,
            0 <= h,
    ;
}

proof fn lemma_grid_from_bounded(draws: Seq<u32>, dims: MapDimensions, bound: u32)
    requires
        draws.len() == dims.width * dims.height,
        forall|i: int| 0 <= i < draws.len() ==> #[trigger] draws[i] < bound,
    ensures
        forall|x: int, y: int|
            dims.contains_spec(x, y) ==> #[trigger] grid_from(draws, dims)[x][y] < bound,
{
    assert forall|x: int, y: int| dims.contains_spec(x, y) implies #[trigger] grid_from(
        draws,
        dims,
    )[x][y] < bound by {
        lemma_cell_index_below(x, y, dims.width as int, dims.height as int);
        assert(draws[x * dims.height + y] < bound);
    }
}

} // verus!
