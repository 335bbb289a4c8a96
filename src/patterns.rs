//! Small patterns whose evolution is known: the block, which never changes,
//! and the blinker, which turns between a row and a column of three.
use vstd::prelude::*;
use vstd::arithmetic::div_mod::{lemma_fundamental_div_mod, lemma_mod_multiples_vanish};
use crate::world::{
    Cell, WORLD_HEIGHT, WORLD_WIDTH, count_alive, is_grid, lemma_wrap_step, live_neighbors,
    neighbors_of, step_grid, wrap,
};

verus! {

/// `g` is a grid whose live cells are exactly those that `shape` marks, with
/// the shape's origin at `(bx, by)`. `shape` is asked about offsets from the
/// origin, taken around the torus into `0..WORLD_WIDTH` and `0..WORLD_HEIGHT`.
pub open spec fn placed(g: Seq<Seq<Cell>>, shape: spec_fn(int, int) -> bool, bx: int, by: int) -> bool {
    &&& is_grid(g)
    &&& forall|x: int, y: int|
        0 <= x < WORLD_WIDTH && 0 <= y < WORLD_HEIGHT ==> (#[trigger] g[y][x] == Cell::Alive <==> shape(
            wrap(x - bx, WORLD_WIDTH as int),
            wrap(y - by, WORLD_HEIGHT as int),
        ))
}

/// A 2×2 square of live cells with its top-left cell at the origin.
pub open spec fn block() -> spec_fn(int, int) -> bool {
    |u: int, v: int| u < 2 && v < 2
}

/// Three live cells in a row, centred on the origin.
pub open spec fn blinker_row() -> spec_fn(int, int) -> bool {
    |u: int, v: int| v == 0 && (u == 0 || u == 1 || u == WORLD_WIDTH - 1)
}

/// Three live cells in a column, centred on the origin.
pub open spec fn blinker_column() -> spec_fn(int, int) -> bool {
    |u: int, v: int| u == 0 && (v == 0 || v == 1 || v == WORLD_HEIGHT - 1)
}

/// 1 where `shape` marks the offset `(u, v)` taken around the torus, else 0.
pub open spec fn marked(shape: spec_fn(int, int) -> bool, u: int, v: int) -> int {
    if shape(wrap(u, WORLD_WIDTH as int), wrap(v, WORLD_HEIGHT as int)) {
        1
    } else {
        0
    }
}

/// 1 for a live cell, 0 for a dead one.
pub open spec fn alive_bit(c: Cell) -> int {
    if c == Cell::Alive {
        1
    } else {
        0
    }
}

proof fn lemma_count_alive_eight(s: Seq<Cell>)
    requires
        s.len() == 8,
    ensures
        count_alive(s) == alive_bit(s[0]) + alive_bit(s[1]) + alive_bit(s[2]) + alive_bit(s[3])
            + alive_bit(s[4]) + alive_bit(s[5]) + alive_bit(s[6]) + alive_bit(s[7]),
{
    reveal_with_fuel(count_alive, 9);
    assert(s.drop_last().drop_last().drop_last().drop_last().drop_last().drop_last().drop_last().drop_last()
        .len() == 0);
}

/// Offsets compose around the torus: wrapping before or after a shift gives
/// the same coordinate.
proof fn lemma_wrap_shift(x: int, d: int, b: int, n: int)
    requires
        n > 0,
    ensures
        wrap(wrap(x + d, n) - b, n) == wrap(wrap(x - b, n) + d, n),
{
    lemma_fundamental_div_mod(x + d, n);
    lemma_fundamental_div_mod(x - b, n);
    let q1 = (x + d) / n;
    let q2 = (x - b) / n;
    lemma_mod_multiples_vanish(-q1, x + d - b, n);
    lemma_mod_multiples_vanish(-q2, x + d - b, n);
    assert(wrap(x + d, n) - b == n * (-q1) + (x + d - b)) by (nonlinear_arith)
        requires
            x + d == n * q1 + wrap(x + d, n),
    ;
    assert(wrap(x - b, n) + d == n * (-q2) + (x + d - b)) by (nonlinear_arith)
        requires
            x - b == n * q2 + wrap(x - b, n),
    ;
}

/// The live neighbours of a cell of a placed shape, counted over offsets
/// from the shape's origin.
proof fn lemma_placed_neighbors(
    g: Seq<Seq<Cell>>,
    shape: spec_fn(int, int) -> bool,
    bx: int,
    by: int,
    x: int,
    y: int,
)
    requires
        placed(g, shape, bx, by),
        0 <= x < WORLD_WIDTH,
        0 <= y < WORLD_HEIGHT,
    ensures
        ({
            let u = wrap(x - bx, WORLD_WIDTH as int);
            let v = wrap(y - by, WORLD_HEIGHT as int);
            live_neighbors(g, x, y) == marked(shape, u - 1, v - 1) + marked(shape, u, v - 1)
                + marked(shape, u + 1, v - 1) + marked(shape, u - 1, v) + marked(shape, u + 1, v)
                + marked(shape, u - 1, v + 1) + marked(shape, u, v + 1) + marked(shape, u + 1, v + 1)
        }),
{
    let w = WORLD_WIDTH as int;
    let h = WORLD_HEIGHT as int;
    let u = wrap(x - bx, w);
    let v = wrap(y - by, h);
    let s = neighbors_of(g, x, y);
    lemma_count_alive_eight(s);
    assert forall|dx: int, dy: int|
        -1 <= dx <= 1 && -1 <= dy <= 1 implies #[trigger] alive_bit(g[wrap(y + dy, h)][wrap(x + dx, w)])
        == marked(shape, u + dx, v + dy) by {
        lemma_wrap_step(x, dx, w);
        lemma_wrap_step(y, dy, h);
        lemma_wrap_shift(x, dx, bx, w);
        lemma_wrap_shift(y, dy, by, h);
    }
    assert(s[0] == g[wrap(y + -1, h)][wrap(x + -1, w)]);
    assert(s[1] == g[wrap(y + -1, h)][wrap(x + 0, w)]);
    assert(s[2] == g[wrap(y + -1, h)][wrap(x + 1, w)]);
    assert(s[3] == g[wrap(y + 0, h)][wrap(x + -1, w)]);
    assert(s[4] == g[wrap(y + 0, h)][wrap(x + 1, w)]);
    assert(s[5] == g[wrap(y + 1, h)][wrap(x + -1, w)]);
    assert(s[6] == g[wrap(y + 1, h)][wrap(x + 0, w)]);
    assert(s[7] == g[wrap(y + 1, h)][wrap(x + 1, w)]);
    assert(alive_bit(s[0]) == marked(shape, u + -1, v + -1));
    assert(alive_bit(s[1]) == marked(shape, u + 0, v + -1));
    assert(alive_bit(s[2]) == marked(shape, u + 1, v + -1));
    assert(alive_bit(s[3]) == marked(shape, u + -1, v + 0));
    assert(alive_bit(s[4]) == marked(shape, u + 1, v + 0));
    assert(alive_bit(s[5]) == marked(shape, u + -1, v + 1));
    assert(alive_bit(s[6]) == marked(shape, u + 0, v + 1));
    assert(alive_bit(s[7]) == marked(shape, u + 1, v + 1));
}

/// Two grids that hold the same shape at the same origin are the same grid.
pub proof fn lemma_placed_unique(
    g1: Seq<Seq<Cell>>,
    g2: Seq<Seq<Cell>>,
    shape: spec_fn(int, int) -> bool,
    bx: int,
    by: int,
)
    requires
        placed(g1, shape, bx, by),
        placed(g2, shape, bx, by),
    ensures
        g1 == g2,
{
    assert forall|y: int| 0 <= y < WORLD_HEIGHT implies #[trigger] g1[y] =~= g2[y] by {
        assert forall|x: int| 0 <= x < WORLD_WIDTH implies g1[y][x] == g2[y][x] by {
            if g1[y][x] == Cell::Alive {
                assert(g2[y][x] == Cell::Alive);
            } else if g2[y][x] == Cell::Alive {
                assert(g1[y][x] == Cell::Alive);
            }
        }
    }
    assert(g1 =~= g2);
}

/// A 2×2 block of live cells with every other cell dead is a still life: the
/// next generation is the same grid, wherever the block stands.
pub proof fn lemma_block_still_life(g: Seq<Seq<Cell>>, bx: int, by: int)
    requires
        placed(g, block(), bx, by),
    ensures
        step_grid(g) == g,
{
    let w = WORLD_WIDTH as int;
    let h = WORLD_HEIGHT as int;
    assert forall|x: int, y: int|
        0 <= x < WORLD_WIDTH && 0 <= y < WORLD_HEIGHT implies (#[trigger] step_grid(g)[y][x]
        == Cell::Alive <==> block()(wrap(x - bx, w), wrap(y - by, h))) by {
        let u = wrap(x - bx, w);
        let v = wrap(y - by, h);
        lemma_placed_neighbors(g, block(), bx, by, x, y);
        lemma_wrap_step(u, -1, w);
        lemma_wrap_step(u, 0, w);
        lemma_wrap_step(u, 1, w);
        lemma_wrap_step(v, -1, h);
        lemma_wrap_step(v, 0, h);
        lemma_wrap_step(v, 1, h);
    }
    lemma_placed_unique(step_grid(g), g, block(), bx, by);
}

/// A row of three live cells with every other cell dead becomes a column of
/// three through the same centre.
pub proof fn lemma_blinker_row_turns(g: Seq<Seq<Cell>>, bx: int, by: int)
    requires
        placed(g, blinker_row(), bx, by),
    ensures
        placed(step_grid(g), blinker_column(), bx, by),
{
    let w = WORLD_WIDTH as int;
    let h = WORLD_HEIGHT as int;
    assert forall|x: int, y: int|
        0 <= x < WORLD_WIDTH && 0 <= y < WORLD_HEIGHT implies (#[trigger] step_grid(g)[y][x]
        == Cell::Alive <==> blinker_column()(wrap(x - bx, w), wrap(y - by, h))) by {
        let u = wrap(x - bx, w);
        let v = wrap(y - by, h);
        lemma_placed_neighbors(g, blinker_row(), bx, by, x, y);
        lemma_wrap_step(u, -1, w);
        lemma_wrap_step(u, 0, w);
        lemma_wrap_step(u, 1, w);
        lemma_wrap_step(v, -1, h);
        lemma_wrap_step(v, 0, h);
        lemma_wrap_step(v, 1, h);
    }
}

/// A column of three live cells with every other cell dead becomes a row of
/// three through the same centre.
pub proof fn lemma_blinker_column_turns(g: Seq<Seq<Cell>>, bx: int, by: int)
    requires
        placed(g, blinker_column(), bx, by),
    ensures
        placed(step_grid(g), blinker_row(), bx, by),
{
    let w = WORLD_WIDTH as int;
    let h = WORLD_HEIGHT as int;
    assert forall|x: int, y: int|
        0 <= x < WORLD_WIDTH && 0 <= y < WORLD_HEIGHT implies (#[trigger] step_grid(g)[y][x]
        == Cell::Alive <==> blinker_row()(wrap(x - bx, w), wrap(y - by, h))) by {
        let u = wrap(x - bx, w);
        let v = wrap(y - by, h);
        lemma_placed_neighbors(g, blinker_column(), bx, by, x, y);
        lemma_wrap_step(u, -1, w);
        lemma_wrap_step(u, 0, w);
        lemma_wrap_step(u, 1, w);
        lemma_wrap_step(v, -1, h);
        lemma_wrap_step(v, 0, h);
        lemma_wrap_step(v, 1, h);
    }
}

/// The blinker oscillates with period two: a horizontal row of three turns
/// into a vertical column after one generation, and is back where it started
/// after two.
pub proof fn lemma_blinker_period_two(g: Seq<Seq<Cell>>, bx: int, by: int)
    requires
        placed(g, blinker_row(), bx, by),
    ensures
        placed(step_grid(g), blinker_column(), bx, by),
        step_grid(step_grid(g)) == g,
{
    lemma_blinker_row_turns(g, bx, by);
    lemma_blinker_column_turns(step_grid(g), bx, by);
    lemma_placed_unique(step_grid(step_grid(g)), g, blinker_row(), bx, by);
}

} // verus!
