use game_of_life::board::SIZE_OVERFLOW;
use game_of_life::{Board, Cell};

fn board_with(width: usize, height: usize, alive: &[(isize, isize)]) -> Board {
    let mut board = Board::new(width, height).unwrap();
    for &(x, y) in alive {
        board.set(x, y, Cell::Alive);
    }
    board
}

fn living(board: &Board, width: usize, height: usize) -> Vec<(usize, usize)> {
    let mut found = Vec::new();
    for y in 0..height {
        for x in 0..width {
            if board.get(x, y) == Cell::Alive {
                found.push((x, y));
            }
        }
    }
    found
}

#[test]
fn new_board_is_all_dead() {
    let board = Board::new(4, 3).unwrap();
    assert_eq!(living(&board, 4, 3), vec![]);
    assert_eq!(board.to_string().chars().count(), (4 + 1) * 3);
}

#[test]
fn construction_overflow_is_reported() {
    assert!(matches!(Board::new(usize::MAX, 2), Err(SIZE_OVERFLOW)));
    assert!(matches!(Board::new(usize::MAX / 2 + 1, 2), Err(SIZE_OVERFLOW)));
    assert_eq!(
        Board::new(2, usize::MAX).err(),
        Some("Board size is too big (width * height should fit in usize)")
    );
}

#[test]
fn empty_boards_can_be_made_shown_and_advanced() {
    let mut none = Board::new(0, 0).unwrap();
    none.get_next_state();
    assert_eq!(none.to_string(), "");
    let mut no_columns = Board::new(0, 3).unwrap();
    no_columns.get_next_state();
    assert_eq!(no_columns.to_string(), "\n\n\n");
    let mut no_rows = Board::new(usize::MAX, 0).unwrap();
    no_rows.get_next_state();
    assert_eq!(no_rows.to_string(), "");
}

#[test]
fn wrap_coordinate_is_euclidean() {
    let board = Board::new(3, 5).unwrap();
    assert_eq!(board.wrap_coordinate(0, 3), 0);
    assert_eq!(board.wrap_coordinate(2, 3), 2);
    assert_eq!(board.wrap_coordinate(3, 3), 0);
    assert_eq!(board.wrap_coordinate(7, 3), 1);
    assert_eq!(board.wrap_coordinate(-1, 3), 2);
    assert_eq!(board.wrap_coordinate(-3, 3), 0);
    assert_eq!(board.wrap_coordinate(-4, 3), 2);
    assert_eq!(board.wrap_coordinate(-7, 5), 3);
    assert_eq!(board.wrap_coordinate(isize::MIN, 1), 0);
    assert_eq!(board.wrap_coordinate(isize::MIN, 3), (isize::MIN).rem_euclid(3) as usize);
    assert_eq!(board.wrap_coordinate(isize::MAX, 7), (isize::MAX).rem_euclid(7) as usize);
    assert_eq!(board.wrap_coordinate(-1, usize::MAX), usize::MAX - 1);
    assert_eq!(board.wrap_coordinate(isize::MIN, usize::MAX), usize::MAX / 2);
}

#[test]
fn wrap_x_and_wrap_y_use_their_own_axis() {
    let board = Board::new(3, 5).unwrap();
    assert_eq!(board.wrap_x(4), 1);
    assert_eq!(board.wrap_y(4), 4);
    assert_eq!(board.wrap_x(-1), 2);
    assert_eq!(board.wrap_y(-1), 4);
}

#[test]
fn neighbor_coordinate_steps_around_the_axis() {
    let board = Board::new(3, 5).unwrap();
    assert_eq!(board.neighbor_coordinate(0, -1, 3), 2);
    assert_eq!(board.neighbor_coordinate(2, 1, 3), 0);
    assert_eq!(board.neighbor_coordinate(1, 0, 3), 1);
    assert_eq!(board.neighbor_coordinate(7, 1, 5), 3);
    assert_eq!(board.neighbor_coordinate(usize::MAX, 1, usize::MAX), 1);
    assert_eq!(board.neighbor_coordinate(usize::MAX - 1, -1, usize::MAX), usize::MAX - 2);
    assert_eq!(board.neighbor_coordinate(0, -1, usize::MAX), usize::MAX - 1);
}

#[test]
fn index_is_row_major() {
    let board = Board::new(4, 3).unwrap();
    assert_eq!(board.index(0, 0), 0);
    assert_eq!(board.index(3, 0), 3);
    assert_eq!(board.index(0, 1), 4);
    assert_eq!(board.index(2, 1), 6);
    assert_eq!(board.index(3, 2), 11);
}

#[test]
fn wrapping_is_identity_in_range() {
    let board = Board::new(4, 3).unwrap();
    for y in 0..3usize {
        for x in 0..4usize {
            assert_eq!(board.index_from_signed(x as isize, y as isize), board.index(x, y));
        }
    }
}

#[test]
fn index_from_signed_is_periodic() {
    let board = Board::new(4, 3).unwrap();
    for y in -7..7isize {
        for x in -9..9isize {
            let here = board.index_from_signed(x, y);
            assert_eq!(board.index_from_signed(x + 4, y), here);
            assert_eq!(board.index_from_signed(x, y + 3), here);
            assert_eq!(board.index_from_signed(x - 4, y - 3), here);
        }
    }
    assert_eq!(board.index_from_signed(-1, -1), 11);
    assert_eq!(board.index_from_signed(4, 3), 0);
    assert_eq!(board.index_from_signed(5, -2), 5);
}

#[test]
fn toroidal_wrap() {
    let board = board_with(3, 3, &[(0, 0)]);
    assert!(board.get_from_signed(-1, -1) == Ok(board.get(2, 2)));
    assert!(board.get_from_signed(-1, -1) == Ok(Cell::Dead));
    assert!(board.get_from_signed(3, 3) == Ok(board.get(0, 0)));
    assert!(board.get_from_signed(3, 3) == Ok(Cell::Alive));
}

#[test]
fn set_wraps_and_touches_one_cell() {
    let mut board = Board::new(4, 3).unwrap();
    board.set(-1, 4, Cell::Alive);
    assert_eq!(living(&board, 4, 3), vec![(3, 1)]);
    board.set(3, 1, Cell::Dead);
    assert_eq!(living(&board, 4, 3), vec![]);
}

#[test]
fn get_neighbors_lists_columns_left_to_right() {
    let board = board_with(3, 3, &[(0, 0), (1, 0), (0, 2)]);
    let around = board.get_neighbors(1, 1);
    assert!(
        around
            == vec![
                Cell::Alive,
                Cell::Dead,
                Cell::Alive,
                Cell::Alive,
                Cell::Dead,
                Cell::Dead,
                Cell::Dead,
                Cell::Dead,
            ]
    );
}

#[test]
fn count_living_neighbors_counts_each_neighbor_once() {
    let full = board_with(
        3,
        3,
        &[(0, 0), (1, 0), (2, 0), (0, 1), (1, 1), (2, 1), (0, 2), (1, 2), (2, 2)],
    );
    for y in 0..3 {
        for x in 0..3 {
            assert_eq!(full.count_living_neighbors(x, y), 8);
        }
    }
    let empty = Board::new(3, 3).unwrap();
    assert_eq!(empty.count_living_neighbors(1, 1), 0);
    let lone = board_with(5, 5, &[(2, 2)]);
    assert_eq!(lone.count_living_neighbors(2, 2), 0);
    assert_eq!(lone.count_living_neighbors(1, 1), 1);
    assert_eq!(lone.count_living_neighbors(3, 2), 1);
    assert_eq!(lone.count_living_neighbors(4, 4), 0);
}

#[test]
fn count_living_neighbors_wraps_at_the_edges() {
    let board = board_with(4, 3, &[(3, 2), (0, 2), (3, 0)]);
    assert_eq!(board.count_living_neighbors(0, 0), 3);
    assert_eq!(board.count_living_neighbors(3, 2), 2);
    assert_eq!(board.count_living_neighbors(1, 1), 1);
    assert_eq!(board.count_living_neighbors(4, 3), 3);
}

#[test]
fn count_living_neighbors_on_a_single_cell_board() {
    let alone = board_with(1, 1, &[(0, 0)]);
    assert_eq!(alone.count_living_neighbors(0, 0), 8);
}

#[test]
fn count_is_the_same_for_any_order_of_the_neighbors() {
    let board = board_with(5, 4, &[(1, 1), (2, 1), (3, 3), (0, 0), (4, 2), (2, 2)]);
    let orders: [[(isize, isize); 8]; 3] = [
        [(1, 1), (1, 0), (1, -1), (0, 1), (0, -1), (-1, 1), (-1, 0), (-1, -1)],
        [(-1, -1), (0, -1), (1, -1), (1, 0), (1, 1), (0, 1), (-1, 1), (-1, 0)],
        [(1, -1), (0, -1), (-1, -1), (1, 0), (-1, 0), (1, 1), (0, 1), (-1, 1)],
    ];
    for y in 0..4isize {
        for x in 0..5isize {
            let count = board.count_living_neighbors(x as usize, y as usize);
            assert!(count <= 8);
            for order in orders {
                let mut seen = 0u8;
                for (dx, dy) in order {
                    if board.get_from_signed(x + dx, y + dy) == Ok(Cell::Alive) {
                        seen += 1;
                    }
                }
                assert_eq!(seen, count);
            }
        }
    }
}

#[test]
fn blinker() {
    let mut board = board_with(5, 5, &[(1, 2), (2, 2), (3, 2)]);
    board.get_next_state();
    assert_eq!(living(&board, 5, 5), vec![(2, 1), (2, 2), (2, 3)]);
    board.get_next_state();
    assert_eq!(living(&board, 5, 5), vec![(1, 2), (2, 2), (3, 2)]);
}

#[test]
fn blinker_on_a_board_that_is_not_square() {
    let mut wide = board_with(7, 5, &[(4, 2), (5, 2), (6, 2)]);
    wide.get_next_state();
    assert_eq!(living(&wide, 7, 5), vec![(5, 1), (5, 2), (5, 3)]);
    let mut tall = board_with(5, 7, &[(2, 4), (2, 5), (2, 6)]);
    tall.get_next_state();
    assert_eq!(living(&tall, 5, 7), vec![(1, 5), (2, 5), (3, 5)]);
}

#[test]
fn three_living_neighbors_give_life() {
    let mut born = board_with(5, 5, &[(1, 1), (2, 1), (3, 1)]);
    assert_eq!(born.count_living_neighbors(2, 2), 3);
    born.get_next_state();
    assert!(born.get(2, 2) == Cell::Alive);
    let mut kept = board_with(5, 5, &[(1, 1), (2, 1), (3, 1), (2, 2)]);
    assert_eq!(kept.count_living_neighbors(2, 2), 3);
    kept.get_next_state();
    assert!(kept.get(2, 2) == Cell::Alive);
}

#[test]
fn two_living_neighbors_keep_a_living_cell_alive() {
    let mut board = board_with(5, 5, &[(1, 1), (2, 2), (3, 3)]);
    assert_eq!(board.count_living_neighbors(2, 2), 2);
    board.get_next_state();
    assert_eq!(living(&board, 5, 5), vec![(2, 2)]);
}

#[test]
fn dead_cell_without_three_neighbors_stays_dead() {
    let mut two = board_with(5, 5, &[(1, 1), (3, 3)]);
    assert_eq!(two.count_living_neighbors(2, 2), 2);
    two.get_next_state();
    assert!(two.get(2, 2) == Cell::Dead);
    let mut four = board_with(5, 5, &[(1, 1), (3, 1), (1, 3), (3, 3)]);
    assert_eq!(four.count_living_neighbors(2, 2), 4);
    four.get_next_state();
    assert!(four.get(2, 2) == Cell::Dead);
}

#[test]
fn living_cell_dies_of_too_few_or_too_many_neighbors() {
    let mut alone = board_with(5, 5, &[(2, 2)]);
    alone.get_next_state();
    assert_eq!(living(&alone, 5, 5), vec![]);
    let mut one = board_with(5, 5, &[(2, 2), (1, 1)]);
    one.get_next_state();
    assert_eq!(living(&one, 5, 5), vec![]);
    let mut crowded = board_with(5, 5, &[(2, 2), (1, 1), (3, 1), (1, 3), (3, 3)]);
    assert_eq!(crowded.count_living_neighbors(2, 2), 4);
    crowded.get_next_state();
    assert!(crowded.get(2, 2) == Cell::Dead);
}

#[test]
fn generation_is_computed_from_the_old_cells_only() {
    let mut glider = board_with(6, 6, &[(1, 0), (2, 1), (0, 2), (1, 2), (2, 2)]);
    glider.get_next_state();
    assert_eq!(living(&glider, 6, 6), vec![(0, 1), (2, 1), (1, 2), (2, 2), (1, 3)]);
    glider.get_next_state();
    assert_eq!(living(&glider, 6, 6), vec![(2, 1), (0, 2), (2, 2), (1, 3), (2, 3)]);
}

#[test]
fn advance_is_deterministic() {
    let cells = [(1, 0), (2, 1), (0, 2), (1, 2), (2, 2), (4, 4), (5, 5)];
    let mut first = board_with(6, 7, &cells);
    let mut second = board_with(6, 7, &cells);
    for _ in 0..5 {
        first.get_next_state();
        second.get_next_state();
        assert_eq!(first.to_string(), second.to_string());
        assert_eq!(living(&first, 6, 7), living(&second, 6, 7));
    }
}

#[test]
fn cell_text_is_its_glyph() {
    assert_eq!(Cell::Alive.to_string(), "\u{1F7EA}");
    assert_eq!(Cell::Dead.to_string(), "\u{2B1B}");
}

#[test]
fn board_text_is_one_line_per_row() {
    let board = board_with(3, 2, &[(0, 0), (2, 1)]);
    assert_eq!(
        board.to_string(),
        "\u{1F7EA}\u{2B1B}\u{2B1B}\n\u{2B1B}\u{2B1B}\u{1F7EA}\n"
    );
}
