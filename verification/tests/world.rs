use genetic_rockets::world::map_rows;
use genetic_rockets::{Wall, WindowPoint, World};

fn rows_of(lines: &[&str]) -> Vec<Vec<char>> {
    lines.iter().map(|l| l.chars().collect()).collect()
}

fn walls_of(world: &World, rows: usize, columns: usize) -> Vec<(usize, usize)> {
    let mut walls = Vec::new();
    for i in 0..rows {
        for j in 0..columns {
            if world.is_wall((i, j)) {
                walls.push((i, j));
            }
        }
    }
    walls
}

#[test]
fn map_rows_splits_at_line_feeds() {
    assert_eq!(map_rows("ab\ncd"), rows_of(&["ab", "cd"]));
    assert_eq!(map_rows("ab\ncd\n"), rows_of(&["ab", "cd"]));
    assert_eq!(map_rows("a\n\nb"), rows_of(&["a", "", "b"]));
    assert_eq!(map_rows("\n"), rows_of(&[""]));
    assert_eq!(map_rows(""), rows_of(&[]));
    assert_eq!(map_rows("abc"), rows_of(&["abc"]));
}

#[test]
fn map_rows_drops_a_carriage_return_before_a_line_feed() {
    assert_eq!(map_rows("ab\r\ncd\r\n"), rows_of(&["ab", "cd"]));
    assert_eq!(map_rows("a\rb\r\n"), rows_of(&["a\rb"]));
    assert_eq!(map_rows("ab\r\r\n"), rows_of(&["ab\r"]));
    assert_eq!(map_rows("\r\n"), rows_of(&[""]));
}

#[test]
fn map_rows_keeps_a_carriage_return_at_the_very_end() {
    assert_eq!(map_rows("ab\ncd\r"), rows_of(&["ab", "cd\r"]));
}

#[test]
fn map_rows_counts_characters_not_bytes() {
    assert_eq!(map_rows("1é1\n"), vec![vec!['1', 'é', '1']]);
}

#[test]
fn load_map_data_lists_every_cell_that_is_not_a_one() {
    let (side, walls) = World::load_map_data(&rows_of(&["111", "101", "011"]));
    assert_eq!(side, 3);
    assert_eq!(walls, vec![(1, 1), (2, 0)]);
}

#[test]
fn load_map_data_takes_any_other_character_for_an_obstacle() {
    let (side, walls) = World::load_map_data(&rows_of(&["1a 0#"]));
    assert_eq!(side, 5);
    assert_eq!(walls, vec![(0, 1), (0, 2), (0, 3), (0, 4)]);
}

#[test]
fn load_map_data_takes_the_side_from_the_first_row() {
    let (side, walls) = World::load_map_data(&rows_of(&["1", "000", "11"]));
    assert_eq!(side, 1);
    assert_eq!(walls, vec![(1, 0), (1, 1), (1, 2)]);
}

#[test]
fn load_map_data_of_nothing() {
    assert_eq!(World::load_map_data(&rows_of(&[])), (0, vec![]));
    assert_eq!(World::load_map_data(&rows_of(&[""])), (0, vec![]));
}

#[test]
fn world_of_a_map() {
    let world = World::new("1111\n1001\n1111\n0111\n");
    assert_eq!(world.grid_size(), 4);
    assert_eq!(walls_of(&world, 6, 6), vec![(1, 1), (1, 2), (3, 0)]);
}

#[test]
fn world_of_a_map_with_carriage_returns() {
    let world = World::new("11\r\n10\r\n");
    assert_eq!(world.grid_size(), 2);
    assert_eq!(walls_of(&world, 4, 4), vec![(1, 1)]);
}

#[test]
fn world_of_an_all_open_map_has_no_walls() {
    let world = World::new("1111\n1111\n1111\n1111");
    assert_eq!(world.grid_size(), 4);
    assert_eq!(walls_of(&world, 4, 4), vec![]);
}

#[test]
fn world_of_an_empty_map() {
    let world = World::new("");
    assert_eq!(world.grid_size(), 0);
    assert!(!world.is_wall((0, 0)));
}

#[test]
fn a_point_outside_the_window_is_a_wall() {
    let world = World::new("11\n11");
    assert!(world.is_wall(&WindowPoint { outside: true, cell: (0, 0) }));
    assert!(world.is_wall(&WindowPoint { outside: true, cell: (7, 9) }));
    assert!(!world.is_wall(&WindowPoint { outside: false, cell: (0, 0) }));
}

#[test]
fn a_point_inside_is_looked_up_by_row_then_column() {
    let world = World::new("101\n111\n111");
    assert!(world.is_wall((0, 1)));
    assert!(!world.is_wall((1, 0)));
    assert!(world.is_wall(&WindowPoint { outside: false, cell: (1, 0) }));
    assert!(!world.is_wall(&WindowPoint { outside: false, cell: (0, 1) }));
}
