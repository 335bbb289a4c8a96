use vstd::prelude::*;
use vstd::arithmetic::div_mod::{lemma_fundamental_div_mod, lemma_fundamental_div_mod_converse};

verus! {

/// Number of columns of the grid.
pub const WORLD_WIDTH: usize = 50;

/// Number of rows of the grid.
pub const WORLD_HEIGHT: usize = 50;

/// The state of one cell.
#[derive(Debug, Clone, Copy, PartialEq, Eq, Structural)]
pub enum Cell {
    Alive,
    Dead,
}

/// One generation: `cells[y][x]` is the cell in row `y`, column `x`.
#[derive(Debug)]
pub struct World {
    pub cells: [[Cell; WORLD_WIDTH]; WORLD_HEIGHT],
}

/// A grid as rows of cells: `g[y][x]`.
pub open spec fn is_grid(g: Seq<Seq<Cell>>) -> bool {
    &&& g.len() == WORLD_HEIGHT
    &&& forall|y: int| 0 <= y < WORLD_HEIGHT ==> (#[trigger] g[y]).len() == WORLD_WIDTH
}

/// `v` taken modulo `n`, always in `0..n` for positive `n`.
pub open spec fn wrap(v: int, n: int) -> int {
    v % n
}

/// The eight offsets `(dx, dy)` around a cell, row by row (`dy`, then `dx`).
pub open spec fn neighbor_offsets() -> Seq<(int, int)> {
    seq![(-1, -1), (0, -1), (1, -1), (-1, 0), (1, 0), (-1, 1), (0, 1), (1, 1)]
}

/// The coordinates `(x', y')` of the eight cells around `(x, y)` on the torus,
/// in the order of `neighbor_offsets`.
pub open spec fn neighbor_coords(x: int, y: int) -> Seq<(int, int)> {
    neighbor_offsets().map_values(
        |o: (int, int)| (wrap(x + o.0, WORLD_WIDTH as int), wrap(y + o.1, WORLD_HEIGHT as int)),
    )
}

/// The eight cells around `(x, y)`, in the order of `neighbor_coords`.
pub open spec fn neighbors_of(g: Seq<Seq<Cell>>, x: int, y: int) -> Seq<Cell> {
    neighbor_coords(x, y).map_values(|c: (int, int)| g[c.1][c.0])
}

/// How many cells of `s` are alive.
pub open spec fn count_alive(s: Seq<Cell>) -> nat
    decreases s.len(),
{
    if s.len() == 0 {
        0
    } else {
        count_alive(s.drop_last()) + if s.last() == Cell::Alive { 1nat } else { 0nat }
    }
}

/// How many of the eight cells around `(x, y)` are alive.
pub open spec fn live_neighbors(g: Seq<Seq<Cell>>, x: int, y: int) -> nat {
    count_alive(neighbors_of(g, x, y))
}

/// The rule: a cell is alive in the next generation when it has three live
/// neighbours, or when it is alive and has two.
pub open spec fn next_cell(c: Cell, n: nat) -> Cell {
    if n == 3 || (c == Cell::Alive && n == 2) {
        Cell::Alive
    } else {
        Cell::Dead
    }
}

/// The generation that follows `g`.
pub open spec fn step_grid(g: Seq<Seq<Cell>>) -> Seq<Seq<Cell>> {
    Seq::new(
        WORLD_HEIGHT as nat,
        |y: int| Seq::new(WORLD_WIDTH as nat, |x: int| next_cell(g[y][x], live_neighbors(g, x, y))),
    )
}

/// Moving one step from an in-range coordinate wraps at most once.
pub proof fn lemma_wrap_step(u: int, d: int, n: int)
    requires
        0 <= u < n,
        -1 <= d <= 1,
    ensures
        wrap(u + d, n) == if u + d < 0 {
            u + d + n
        } else if u + d >= n {
            u + d - n
        } else {
            u + d
        },
{
    if u + d < 0 {
        lemma_fundamental_div_mod_converse(u + d, n, -1, u + d + n);
    } else if u + d >= n {
        lemma_fundamental_div_mod_converse(u + d, n, 1, u + d - n);
    } else {
        lemma_fundamental_div_mod_converse(u + d, n, 0, u + d);
    }
}

/// The eight neighbours of an in-range cell are eight distinct in-range
/// cells, none of them the cell itself: wrapping around the edges never makes
/// two offsets land on the same cell.
pub proof fn lemma_neighbors_distinct(x: int, y: int)
    requires
        0 <= x < WORLD_WIDTH,
        0 <= y < WORLD_HEIGHT,
    ensures
        neighbor_coords(x, y).len() == 8,
        forall|i: int|
            0 <= i < 8 ==> {
                let c = #[trigger] neighbor_coords(x, y)[i];
                &&& 0 <= c.0 < WORLD_WIDTH
                &&& 0 <= c.1 < WORLD_HEIGHT
                &&& c != (x, y)
            },
        forall|i: int, j: int|
            0 <= i < j < 8 ==> #[trigger] neighbor_coords(x, y)[i] != #[trigger] neighbor_coords(x, y)[j],
{
    let w = WORLD_WIDTH as int;
    let h = WORLD_HEIGHT as int;
    lemma_wrap_step(x, -1, w);
    lemma_wrap_step(x, 0, w);
    lemma_wrap_step(x, 1, w);
    lemma_wrap_step(y, -1, h);
    lemma_wrap_step(y, 0, h);
    lemma_wrap_step(y, 1, h);
    let c = neighbor_coords(x, y);
    assert(c[0] == (wrap(x - 1, w), wrap(y - 1, h)));
    assert(c[1] == (wrap(x + 0, w), wrap(y - 1, h)));
    assert(c[2] == (wrap(x + 1, w), wrap(y - 1, h)));
    assert(c[3] == (wrap(x - 1, w), wrap(y + 0, h)));
    assert(c[4] == (wrap(x + 1, w), wrap(y + 0, h)));
    assert(c[5] == (wrap(x - 1, w), wrap(y + 1, h)));
    assert(c[6] == (wrap(x + 0, w), wrap(y + 1, h)));
    assert(c[7] == (wrap(x + 1, w), wrap(y + 1, h)));
}

/// The rule case by case: a live cell with fewer than two live neighbours
/// dies, with two or three it lives on, with more than three it dies; a dead
/// cell with exactly three live neighbours comes alive, and otherwise stays
/// dead.
pub proof fn lemma_rule_cases(c: Cell, n: nat)
    ensures
        c == Cell::Alive && n < 2 ==> next_cell(c, n) == Cell::Dead,
        c == Cell::Alive && (n == 2 || n == 3) ==> next_cell(c, n) == Cell::Alive,
        c == Cell::Alive && n > 3 ==> next_cell(c, n) == Cell::Dead,
        c == Cell::Dead && n == 3 ==> next_cell(c, n) == Cell::Alive,
        c == Cell::Dead && n != 3 ==> next_cell(c, n) == Cell::Dead,
{
}

/// `v + d` taken modulo `n`.
fn wrap_coord(v: i32, d: i32, n: usize) -> (r: usize)
    requires
        -1 <= d <= 1,
        0 < n,
    ensures
        r as int == wrap(v + d, n as int),
        r < n,
{
    let t: i64 = v as i64 + d as i64;
    let m: u64 = n as u64;
    if t >= 0 {
        (t as u64 % m) as usize
    } else {
        let a: u64 = (-t) as u64 % m;
        proof {
            let k = (-t) / (m as int);
            lemma_fundamental_div_mod(-t, m as int);
            assert(t == (-k) * m - a) by (nonlinear_arith)
                requires
                    -t == m * k + a,
            ;
            assert((-k) * m - a == (-k - 1) * m + (m - a)) by (nonlinear_arith);
            if a == 0 {
                lemma_fundamental_div_mod_converse(t as int, m as int, -k, 0);
            } else {
                lemma_fundamental_div_mod_converse(t as int, m as int, -k - 1, m - a);
            }
        }
        if a == 0 {
            0
        } else {
            (m - a) as usize
        }
    }
}

/// How many cells of `s` are alive.
fn count_alive_cells(s: &Vec<Cell>) -> (n: usize)
    ensures
        n as nat == count_alive(s@),
{
    let mut n: usize = 0;
    let mut i: usize = 0;
    while i < s.len()
        invariant
            i <= s@.len(),
            n as nat == count_alive(s@.take(i as int)),
            n <= i,
        decreases s@.len() - i,
    {
        assert(s@.take(i as int + 1).drop_last() =~= s@.take(i as int));
        if s[i] == Cell::Alive {
            n = n + 1;
        }
        i = i + 1;
    }
    assert(s@.take(s@.len() as int) =~= s@);
    n
}

impl Cell {
    /// The state of this cell in the next generation, given how many of its
    /// eight neighbours are alive now.
    pub fn next(self, alive_neighbors: usize) -> (r: Cell)
        ensures
            r == next_cell(self, alive_neighbors as nat),
    {
        match self {
            Cell::Alive => {
                if alive_neighbors < 2 {
                    Cell::Dead
                } else if alive_neighbors == 2 || alive_neighbors == 3 {
                    Cell::Alive
                } else {
                    Cell::Dead
                }
            },
            Cell::Dead => {
                if alive_neighbors == 3 {
                    Cell::Alive
                } else {
                    Cell::Dead
                }
            },
        }
    }
}

/// Relies on `rand::random::<bool>`: one draw from the thread-local generator,
/// true and false with even odds. Nothing is promised of the value.
#[verifier::external_body]
fn draw_alive() -> bool {
    rand::random::<bool>()
}

impl View for World {
    type V = Seq<Seq<Cell>>;

    open spec fn view(&self) -> Seq<Seq<Cell>> {
        Seq::new(WORLD_HEIGHT as nat, |y: int| self.cells[y]@)
    }
}

impl World {
    /// A world in which every cell is dead.
    pub fn new() -> (w: World)
        ensures
            is_grid(w@),
            forall|x: int, y: int|
                0 <= x < WORLD_WIDTH && 0 <= y < WORLD_HEIGHT ==> #[trigger] w@[y][x] == Cell::Dead,
    {
        World { cells: [[Cell::Dead; WORLD_WIDTH]; WORLD_HEIGHT] }
    }

    /// The eight cells around `(x, y)` on the torus, row by row from the one
    /// above and to the left, skipping `(x, y)` itself.
    pub fn get_neighbors(&self, x: i32, y: i32) -> (r: Vec<Cell>)
        ensures
            r@ == neighbors_of(self@, x as int, y as int),
    {
        let mut collected: Vec<Cell> = Vec::new();
        let mut dy: i32 = -1;
        while dy < 2
            invariant
                -1 <= dy <= 2,
                collected@.len() == 3 * (dy + 1) - if dy >= 1 { 1int } else { 0int },
                forall|i: int|
                    0 <= i < collected@.len() ==> #[trigger] collected@[i] == neighbors_of(
                        self@,
                        x as int,
                        y as int,
                    )[i],
            decreases 2 - dy,
        {
            let wy = wrap_coord(y, dy, WORLD_HEIGHT);
            let mut dx: i32 = -1;
            while dx < 2
                invariant
                    -1 <= dy <= 1,
                    -1 <= dx <= 2,
                    wy as int == wrap(y + dy, WORLD_HEIGHT as int),
                    collected@.len() == 3 * (dy + 1) - (if dy >= 1 { 1int } else { 0int }) + (dx + 1)
                        - (if dy == 0 && dx >= 1 { 1int } else { 0int }),
                    forall|i: int|
                        0 <= i < collected@.len() ==> #[trigger] collected@[i] == neighbors_of(
                            self@,
                            x as int,
                            y as int,
                        )[i],
                decreases 2 - dx,
            {
                if dx != 0 || dy != 0 {
                    let wx = wrap_coord(x, dx, WORLD_WIDTH);
                    let c = self.cells[wy][wx];
                    collected.push(c);
                }
                dx = dx + 1;
            }
            dy = dy + 1;
        }
        proof {
            assert(collected@ =~= neighbors_of(self@, x as int, y as int));
        }
        collected
    }

    /// Sets every cell: alive where `alive[y][x]` holds, dead elsewhere.
    pub fn fill_from(&mut self, alive: &[[bool; WORLD_WIDTH]; WORLD_HEIGHT])
        ensures
            forall|x: int, y: int|
                0 <= x < WORLD_WIDTH && 0 <= y < WORLD_HEIGHT ==> #[trigger] final(self)@[y][x] == if alive[y][x] {
                    Cell::Alive
                } else {
                    Cell::Dead
                },
    {
        let mut y: usize = 0;
        while y < WORLD_HEIGHT
            invariant
                y <= WORLD_HEIGHT,
                forall|yy: int, xx: int|
                    0 <= yy < y && 0 <= xx < WORLD_WIDTH ==> #[trigger] self.cells[yy][xx] == if alive[yy][xx] {
                        Cell::Alive
                    } else {
                        Cell::Dead
                    },
            decreases WORLD_HEIGHT - y,
        {
            let mut row: [Cell; WORLD_WIDTH] = [Cell::Dead; WORLD_WIDTH];
            let mut x: usize = 0;
            while x < WORLD_WIDTH
                invariant
                    x <= WORLD_WIDTH,
                    y < WORLD_HEIGHT,
                    forall|xx: int|
                        0 <= xx < x ==> #[trigger] row[xx] == if alive[y as int][xx] {
                            Cell::Alive
                        } else {
                            Cell::Dead
                        },
                decreases WORLD_WIDTH - x,
            {
                row[x] = if alive[y][x] {
                    Cell::Alive
                } else {
                    Cell::Dead
                };
                x = x + 1;
            }
            self.cells[y] = row;
            y = y + 1;
        }
    }

    /// Reseeds the world: each cell independently becomes alive or dead
    /// with even odds.
    pub fn randomize(&mut self)
        ensures
            is_grid(final(self)@),
    {
        let mut draws: [[bool; WORLD_WIDTH]; WORLD_HEIGHT] = [[false; WORLD_WIDTH]; WORLD_HEIGHT];
        let mut y: usize = 0;
        while y < WORLD_HEIGHT
            invariant
                y <= WORLD_HEIGHT,
            decreases WORLD_HEIGHT - y,
        {
            let mut row: [bool; WORLD_WIDTH] = [false; WORLD_WIDTH];
            let mut x: usize = 0;
            while x < WORLD_WIDTH
                invariant
                    x <= WORLD_WIDTH,
                    y < WORLD_HEIGHT,
                decreases WORLD_WIDTH - x,
            {
                row[x] = draw_alive();
                x = x + 1;
            }
            draws[y] = row;
            y = y + 1;
        }
        self.fill_from(&draws);
    }

    /// Advances the world by one generation. Every cell of the new
    /// generation is computed from the old one alone.
    pub fn step(&mut self)
        ensures
            final(self)@ == step_grid(old(self)@),
    {
        let mut new_state: [[Cell; WORLD_WIDTH]; WORLD_HEIGHT] = [[Cell::Dead; WORLD_WIDTH]; WORLD_HEIGHT];
        let mut y: usize = 0;
        while y < WORLD_HEIGHT
            invariant
                y <= WORLD_HEIGHT,
                *self == *old(self),
                forall|yy: int, xx: int|
                    0 <= yy < y && 0 <= xx < WORLD_WIDTH ==> #[trigger] new_state[yy][xx]
                        == step_grid(self@)[yy][xx],
            decreases WORLD_HEIGHT - y,
        {
            let mut row: [Cell; WORLD_WIDTH] = [Cell::Dead; WORLD_WIDTH];
            let mut x: usize = 0;
            while x < WORLD_WIDTH
                invariant
                    x <= WORLD_WIDTH,
                    y < WORLD_HEIGHT,
                    *self == *old(self),
                    forall|xx: int| 0 <= xx < x ==> #[trigger] row[xx] == step_grid(self@)[y as int][xx],
                decreases WORLD_WIDTH - x,
            {
                let cell = self.cells[y][x];
                let neighbors = self.get_neighbors(x as i32, y as i32);
                let alive_neighbors = count_alive_cells(&neighbors);
                row[x] = cell.next(alive_neighbors);
                x = x + 1;
            }
            new_state[y] = row;
            y = y + 1;
        }
        self.cells = new_state;
        proof {
            let g = step_grid(old(self)@);
            assert forall|yy: int| 0 <= yy < WORLD_HEIGHT implies #[trigger] self@[yy] =~= g[yy] by {}
            assert(self@ =~= g);
        }
    }
}

} // verus!
