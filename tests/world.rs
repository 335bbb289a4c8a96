use game_of_life::world::{Cell, World, WORLD_HEIGHT, WORLD_WIDTH};

fn world_with(alive: &[(usize, usize)]) -> World {
    let mut w = World::new();
    for &(x, y) in alive {
        w.cells[y][x] = Cell::Alive;
    }
    w
}

fn live_cells(w: &World) -> Vec<(usize, usize)> {
    let mut out = Vec::new();
    for y in 0..WORLD_HEIGHT {
        for x in 0..WORLD_WIDTH {
            if w.cells[y][x] == Cell::Alive {
                out.push((x, y));
            }
        }
    }
    out
}

#[test]
fn new_world_is_all_dead() {
    let w = World::new();
    for y in 0..WORLD_HEIGHT {
        for x in 0..WORLD_WIDTH {
            assert_eq!(w.cells[y][x], Cell::Dead);
        }
    }
}

#[test]
fn block_is_still_life() {
    let mut w = world_with(&[(10, 10), (11, 10), (10, 11), (11, 11)]);
    let before = w.cells;
    w.step();
    assert!(w.cells == before);
    w.step();
    assert!(w.cells == before);
}

#[test]
fn block_across_corner_is_still_life() {
    let mut w = world_with(&[(49, 49), (0, 49), (49, 0), (0, 0)]);
    let before = w.cells;
    w.step();
    assert!(w.cells == before);
}

#[test]
fn blinker_has_period_two() {
    let mut w = world_with(&[(19, 20), (20, 20), (21, 20)]);
    w.step();
    assert_eq!(live_cells(&w), vec![(20, 19), (20, 20), (20, 21)]);
    w.step();
    assert_eq!(live_cells(&w), vec![(19, 20), (20, 20), (21, 20)]);
}

#[test]
fn neighbors_of_corner_wrap_around() {
    // The eight neighbours of (0, 0), in the order get_neighbors yields them.
    let expected = [
        (WORLD_WIDTH - 1, WORLD_HEIGHT - 1),
        (0, WORLD_HEIGHT - 1),
        (1, WORLD_HEIGHT - 1),
        (WORLD_WIDTH - 1, 0),
        (1, 0),
        (WORLD_WIDTH - 1, 1),
        (0, 1),
        (1, 1),
    ];
    for (i, &(x, y)) in expected.iter().enumerate() {
        let w = world_with(&[(x, y)]);
        let n = w.get_neighbors(0, 0);
        assert_eq!(n.len(), 8);
        for (j, c) in n.iter().enumerate() {
            if i == j {
                assert_eq!(*c, Cell::Alive);
            } else {
                assert_eq!(*c, Cell::Dead);
            }
        }
    }
}

#[test]
fn neighbors_of_corner_skip_the_cell_itself() {
    let w = world_with(&[(0, 0)]);
    let n = w.get_neighbors(0, 0);
    assert_eq!(n.len(), 8);
    assert!(n.iter().all(|c| *c == Cell::Dead));
}

#[test]
fn neighbors_wrap_for_coordinates_outside_the_grid() {
    let w = world_with(&[(3, 4), (48, 0), (1, 49), (49, 49)]);
    assert_eq!(w.get_neighbors(-1, -1), w.get_neighbors(49, 49));
    assert_eq!(w.get_neighbors(50, 0), w.get_neighbors(0, 0));
    assert_eq!(w.get_neighbors(102, 154), w.get_neighbors(2, 4));
    assert_eq!(w.get_neighbors(-48, -46), w.get_neighbors(2, 4));
    assert_eq!(w.get_neighbors(2, 4)[4], Cell::Alive);
    assert_eq!(w.get_neighbors(2, 4).iter().filter(|c| **c == Cell::Alive).count(), 1);
}

#[test]
fn rule_for_live_cells() {
    assert_eq!(Cell::Alive.next(0), Cell::Dead);
    assert_eq!(Cell::Alive.next(1), Cell::Dead);
    assert_eq!(Cell::Alive.next(2), Cell::Alive);
    assert_eq!(Cell::Alive.next(3), Cell::Alive);
    for n in 4..=8 {
        assert_eq!(Cell::Alive.next(n), Cell::Dead);
    }
}

#[test]
fn rule_for_dead_cells() {
    for n in 0..=8 {
        let expected = if n == 3 { Cell::Alive } else { Cell::Dead };
        assert_eq!(Cell::Dead.next(n), expected);
    }
}

#[test]
fn lonely_cell_dies() {
    let mut w = world_with(&[(5, 5)]);
    w.step();
    assert!(live_cells(&w).is_empty());

    let mut w = world_with(&[(5, 5), (6, 5)]);
    w.step();
    assert!(live_cells(&w).is_empty());
}

#[test]
fn crowded_cell_dies() {
    // (5, 5) has four live neighbours.
    let mut w = world_with(&[(5, 5), (4, 4), (6, 4), (4, 6), (6, 6)]);
    w.step();
    assert_eq!(w.cells[5][5], Cell::Dead);
}

#[test]
fn cell_with_three_neighbours_is_born() {
    let mut w = world_with(&[(4, 4), (6, 4), (5, 6)]);
    w.step();
    assert_eq!(w.cells[5][5], Cell::Alive);
}

#[test]
fn dead_cell_with_two_neighbours_stays_dead() {
    let mut w = world_with(&[(4, 4), (6, 6)]);
    w.step();
    assert_eq!(w.cells[5][5], Cell::Dead);
}

#[test]
fn fill_from_sets_each_cell() {
    let mut alive = [[false; WORLD_WIDTH]; WORLD_HEIGHT];
    alive[0][0] = true;
    alive[7][3] = true;
    alive[49][49] = true;
    let mut w = World::new();
    w.cells[1][1] = Cell::Alive;
    w.fill_from(&alive);
    assert_eq!(live_cells(&w), vec![(0, 0), (3, 7), (49, 49)]);
}

#[test]
fn randomize_gives_a_mix() {
    let mut w = World::new();
    w.randomize();
    let alive = live_cells(&w).len();
    let total = WORLD_WIDTH * WORLD_HEIGHT;
    assert!(alive > total * 4 / 10, "too few live cells: {}", alive);
    assert!(alive < total * 6 / 10, "too many live cells: {}", alive);
}
