use genetic_rockets::FloodFill;

const WALL: usize = 9;
const OPEN: usize = 0;

fn open_grid(side: usize) -> Vec<Vec<usize>> {
    vec![vec![OPEN; side]; side]
}

#[test]
fn open_grid_is_numbered_in_breadth_first_order() {
    let mut fill = FloodFill::new(&open_grid(3), WALL, OPEN);
    let labels = fill.solve((0, 0));
    assert_eq!(labels, vec![vec![1, 3, 6], vec![2, 5, 8], vec![4, 7, 9]]);
}

#[test]
fn fill_from_the_centre() {
    let mut fill = FloodFill::new(&open_grid(3), WALL, OPEN);
    let labels = fill.solve((1, 1));
    assert_eq!(labels, vec![vec![9, 3, 8], vec![5, 1, 4], vec![7, 2, 6]]);
}

#[test]
fn fill_from_the_far_corner() {
    let mut fill = FloodFill::new(&open_grid(4), WALL, OPEN);
    let labels = fill.solve((3, 3));
    assert_eq!(
        labels,
        vec![
            vec![16, 14, 11, 7],
            vec![15, 12, 8, 4],
            vec![13, 9, 5, 2],
            vec![10, 6, 3, 1],
        ]
    );
}

#[test]
fn start_cell_is_numbered_one() {
    for side in 1..6 {
        for x in 0..side {
            for y in 0..side {
                let mut fill = FloodFill::new(&open_grid(side), WALL, OPEN);
                let labels = fill.solve((x, y));
                assert_eq!(labels[x][y], 1);
            }
        }
    }
}

#[test]
fn first_neighbour_is_numbered_two() {
    let mut fill = FloodFill::new(&open_grid(4), WALL, OPEN);
    let labels = fill.solve((1, 2));
    assert_eq!(labels[2][2], 2);
    let mut fill = FloodFill::new(&open_grid(4), WALL, OPEN);
    let labels = fill.solve((3, 2));
    assert_eq!(labels[2][2], 2);
}

#[test]
fn second_neighbour_is_not_numbered_by_its_distance() {
    let mut fill = FloodFill::new(&open_grid(2), WALL, OPEN);
    let labels = fill.solve((0, 0));
    assert_eq!(labels, vec![vec![1, 3], vec![2, 4]]);
}

#[test]
fn enclosed_start_fills_only_itself() {
    let grid = vec![vec![OPEN, WALL, OPEN], vec![WALL, WALL, OPEN], vec![OPEN, OPEN, OPEN]];
    let mut fill = FloodFill::new(&grid, WALL, OPEN);
    let labels = fill.solve((0, 0));
    assert_eq!(labels, vec![vec![1, WALL, OPEN], vec![WALL, WALL, OPEN], vec![OPEN, OPEN, OPEN]]);
}

#[test]
fn cells_behind_walls_keep_the_sentinel() {
    let grid = vec![
        vec![OPEN, WALL, OPEN, OPEN],
        vec![OPEN, WALL, OPEN, OPEN],
        vec![OPEN, WALL, WALL, WALL],
        vec![OPEN, OPEN, OPEN, OPEN],
    ];
    let mut fill = FloodFill::new(&grid, WALL, OPEN);
    let labels = fill.solve((0, 0));
    assert_eq!(
        labels,
        vec![
            vec![1, WALL, OPEN, OPEN],
            vec![2, WALL, OPEN, OPEN],
            vec![3, WALL, WALL, WALL],
            vec![4, 5, 6, 7],
        ]
    );
    let mut fill = FloodFill::new(&grid, WALL, OPEN);
    let labels = fill.solve((0, 2));
    assert_eq!(
        labels,
        vec![
            vec![OPEN, WALL, 1, 3],
            vec![OPEN, WALL, 2, 4],
            vec![OPEN, WALL, WALL, WALL],
            vec![OPEN, OPEN, OPEN, OPEN],
        ]
    );
}

#[test]
fn start_on_a_wall_is_numbered_all_the_same() {
    let grid = vec![vec![WALL, OPEN], vec![OPEN, OPEN]];
    let mut fill = FloodFill::new(&grid, WALL, OPEN);
    assert_eq!(fill.solve((0, 0)), vec![vec![1, 3], vec![2, 4]]);
}

#[test]
fn single_cell() {
    let mut fill = FloodFill::new(&open_grid(1), WALL, OPEN);
    assert_eq!(fill.solve((0, 0)), vec![vec![1]]);
}

#[test]
fn a_number_equal_to_the_sentinel_lets_the_cell_be_entered_again() {
    let mut fill = FloodFill::new(&vec![vec![2, 2], vec![2, 2]], WALL, 2);
    assert_eq!(fill.solve((0, 0)), vec![vec![1, 3], vec![5, 4]]);
    let mut fill = FloodFill::new(&vec![vec![1, 1], vec![1, 1]], WALL, 1);
    assert_eq!(fill.solve((0, 0)), vec![vec![4, 3], vec![2, 5]]);
}

#[test]
fn a_second_fill_goes_on_counting() {
    let grid = vec![vec![OPEN, OPEN], vec![WALL, OPEN]];
    let mut fill = FloodFill::new(&grid, WALL, OPEN);
    assert_eq!(fill.solve((0, 0)), vec![vec![1, 2], vec![WALL, 3]]);
    assert_eq!(fill.solve((1, 0)), vec![vec![1, 2], vec![4, 3]]);
}

#[test]
fn the_grid_handed_in_is_left_alone() {
    let grid = open_grid(2);
    let mut fill = FloodFill::new(&grid, WALL, OPEN);
    fill.solve((1, 1));
    assert_eq!(grid, open_grid(2));
}

/// The least number of hops from `start` to every cell that a walk over
/// open cells leads to.
fn hops(grid: &Vec<Vec<usize>>, start: (usize, usize)) -> Vec<Vec<Option<usize>>> {
    let side = grid.len();
    let mut found: Vec<Vec<Option<usize>>> = vec![vec![None; side]; side];
    found[start.0][start.1] = Some(0);
    let mut changed = true;
    while changed {
        changed = false;
        for x in 0..side {
            for y in 0..side {
                if grid[x][y] != OPEN || (x, y) == start {
                    continue;
                }
                let mut beside: Vec<Option<usize>> = Vec::new();
                if x > 0 {
                    beside.push(found[x - 1][y]);
                }
                if x + 1 < side {
                    beside.push(found[x + 1][y]);
                }
                if y > 0 {
                    beside.push(found[x][y - 1]);
                }
                if y + 1 < side {
                    beside.push(found[x][y + 1]);
                }
                let least = beside.into_iter().flatten().min().map(|d| d + 1);
                if least.is_some() && (found[x][y].is_none() || least < found[x][y]) {
                    found[x][y] = least;
                    changed = true;
                }
            }
        }
    }
    found
}

fn maze() -> Vec<Vec<usize>> {
    vec![
        vec![OPEN, OPEN, OPEN, WALL, OPEN, OPEN],
        vec![OPEN, WALL, OPEN, WALL, OPEN, WALL],
        vec![OPEN, WALL, OPEN, OPEN, OPEN, OPEN],
        vec![OPEN, WALL, WALL, WALL, WALL, OPEN],
        vec![OPEN, OPEN, OPEN, OPEN, WALL, OPEN],
        vec![WALL, WALL, WALL, OPEN, OPEN, OPEN],
    ]
}

#[test]
fn every_cell_that_can_be_reached_is_numbered_and_no_other() {
    for start in [(0, 0), (2, 3), (5, 5), (4, 2)] {
        let grid = maze();
        let reach = hops(&grid, start);
        let labels = FloodFill::new(&grid, WALL, OPEN).solve(start);
        assert_eq!(labels[start.0][start.1], 1);
        for x in 0..6 {
            for y in 0..6 {
                if reach[x][y].is_some() {
                    assert!(labels[x][y] != OPEN);
                } else {
                    assert_eq!(labels[x][y], grid[x][y]);
                }
            }
        }
    }
}

#[test]
fn a_nearer_cell_has_the_lower_number() {
    for start in [(0, 0), (2, 3), (5, 5), (4, 2), (0, 4)] {
        let grid = maze();
        let reach = hops(&grid, start);
        let labels = FloodFill::new(&grid, 99, OPEN).solve(start);
        for a in 0..36 {
            for b in 0..36 {
                let (ax, ay, bx, by) = (a / 6, a % 6, b / 6, b % 6);
                if let (Some(near), Some(far)) = (reach[ax][ay], reach[bx][by]) {
                    if near < far {
                        assert!(labels[ax][ay] < labels[bx][by]);
                    }
                }
            }
        }
    }
}

#[test]
fn the_numbers_are_the_first_numbers_each_once() {
    let grid = maze();
    let reach = hops(&grid, (0, 0));
    let count = reach.iter().flatten().filter(|d| d.is_some()).count();
    let labels = FloodFill::new(&grid, 99, OPEN).solve((0, 0));
    let mut numbers: Vec<usize> = Vec::new();
    for x in 0..6 {
        for y in 0..6 {
            if reach[x][y].is_some() {
                numbers.push(labels[x][y]);
            }
        }
    }
    numbers.sort();
    assert_eq!(numbers, (1..=count).collect::<Vec<usize>>());
}
