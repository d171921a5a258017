use game2048::command::{parse_direction, Operation, TurnError, TurnOutcome};
use game2048::field::{add, is_tile_value, Field};
use game2048::line::{checked_slide_line, slide_line};

fn board(size: usize, cells: Vec<i32>) -> Field {
    Field::from_cells(size, cells).expect("a board of that side")
}

#[test]
fn saturated_line_stays() {
    assert_eq!(slide_line(&vec![2, 4, 8, 16]), vec![2, 4, 8, 16]);
    assert_eq!(slide_line(&vec![2, 4, 2, 4]), vec![2, 4, 2, 4]);
}

#[test]
fn four_equal_tiles_merge_pairwise() {
    assert_eq!(slide_line(&vec![2, 2, 2, 2]), vec![4, 4, 0, 0]);
}

#[test]
fn gaps_close_before_merging() {
    assert_eq!(slide_line(&vec![0, 2, 0, 2]), vec![4, 0, 0, 0]);
}

#[test]
fn merged_tile_is_not_merged_again() {
    assert_eq!(slide_line(&vec![2, 2, 4, 0]), vec![4, 4, 0, 0]);
    assert_eq!(slide_line(&vec![4, 2, 2, 0]), vec![4, 4, 0, 0]);
    assert_eq!(slide_line(&vec![2, 2, 2, 0]), vec![4, 2, 0, 0]);
    assert_eq!(slide_line(&vec![4, 4, 8, 16]), vec![8, 8, 16, 0]);
}

#[test]
fn short_and_empty_lines() {
    assert_eq!(slide_line(&vec![]), Vec::<i32>::new());
    assert_eq!(slide_line(&vec![0]), vec![0]);
    assert_eq!(slide_line(&vec![8]), vec![8]);
    assert_eq!(slide_line(&vec![0, 0, 0, 0]), vec![0, 0, 0, 0]);
    assert_eq!(slide_line(&vec![0, 0, 0, 2]), vec![2, 0, 0, 0]);
}

#[test]
fn largest_mergeable_tiles_merge() {
    assert_eq!(slide_line(&vec![536870912, 536870912]), vec![1073741824, 0]);
}

#[test]
fn shift_left_slides_rows() {
    let mut g = board(4, vec![2, 2, 2, 2, 0, 2, 0, 2, 2, 4, 8, 16, 0, 0, 4, 4]);
    g.shift(Operation::LEFT);
    assert_eq!(g.snapshot(), vec![4, 4, 0, 0, 4, 0, 0, 0, 2, 4, 8, 16, 8, 0, 0, 0]);
}

#[test]
fn shift_right_slides_rows() {
    let mut g = board(4, vec![2, 2, 2, 2, 0, 2, 0, 2, 2, 4, 8, 16, 2, 2, 2, 0]);
    g.shift(Operation::RIGHT);
    assert_eq!(g.snapshot(), vec![0, 0, 4, 4, 0, 0, 0, 4, 2, 4, 8, 16, 0, 0, 2, 4]);
}

#[test]
fn shift_up_slides_columns() {
    let mut g = board(4, vec![2, 0, 2, 0, 2, 2, 4, 0, 2, 0, 8, 0, 2, 2, 16, 4]);
    g.shift_up();
    assert_eq!(g.snapshot(), vec![4, 4, 2, 4, 4, 0, 4, 0, 0, 0, 8, 0, 0, 0, 16, 0]);
}

#[test]
fn shift_down_slides_columns() {
    let mut g = board(4, vec![2, 0, 2, 0, 2, 2, 4, 0, 2, 0, 8, 0, 0, 2, 16, 4]);
    g.shift_down();
    assert_eq!(g.snapshot(), vec![0, 0, 2, 0, 0, 0, 4, 0, 2, 0, 8, 0, 4, 4, 16, 4]);
}

#[test]
fn shift_horizontal_by_offset() {
    let mut g = board(2, vec![0, 2, 2, 2]);
    g.shift_horizontal(1);
    assert_eq!(g.snapshot(), vec![2, 0, 4, 0]);
    let mut h = board(2, vec![2, 0, 2, 2]);
    h.shift_horizontal(-1);
    assert_eq!(h.snapshot(), vec![0, 2, 0, 4]);
}

#[test]
fn shift_keeps_a_saturated_board() {
    let cells = vec![2, 4, 2, 4, 4, 2, 4, 2, 2, 4, 2, 4, 4, 2, 4, 2];
    for op in [Operation::LEFT, Operation::RIGHT, Operation::UP, Operation::DOWN] {
        let mut g = board(4, cells.clone());
        g.shift(op);
        assert_eq!(g.snapshot(), cells);
    }
}

#[test]
fn spawner_fills_only_empty_cells_that_hit() {
    let mut g = board(2, vec![4, 0, 0, 8]);
    g.spawn_from(&vec![true, true, false, true]);
    assert_eq!(g.snapshot(), vec![4, 2, 0, 8]);
}

#[test]
fn random_spawner_keeps_tiles() {
    let before = vec![4, 0, 0, 8, 0, 16, 0, 0, 2];
    let mut g = board(3, before.clone());
    g.add_new();
    let after = g.snapshot();
    assert_eq!(after.len(), before.len());
    for i in 0..before.len() {
        if before[i] != 0 {
            assert_eq!(after[i], before[i]);
        } else {
            assert!(after[i] == 0 || after[i] == 2);
        }
    }
}

#[test]
fn chance_of_a_hundred_always_hits() {
    let g = Field::configured(3, 100, 0);
    assert_eq!(g.snapshot(), vec![2; 9]);
    let mut h = Field::configured(3, 0, 100);
    assert_eq!(h.snapshot(), vec![0; 9]);
    h.set(1, 1, 8);
    h.add_new();
    assert_eq!(h.snapshot(), vec![2, 2, 2, 2, 8, 2, 2, 2, 2]);
}

#[test]
fn chance_of_zero_never_hits() {
    let mut g = Field::configured(3, 100, 0);
    g.set(0, 0, 0);
    g.add_new();
    assert_eq!(g.snapshot(), vec![0, 2, 2, 2, 2, 2, 2, 2, 2]);
}

#[test]
fn new_game_is_four_by_four() {
    let g = Field::new();
    assert_eq!(g.size(), 4);
    assert!(!g.finished());
    let cells = g.snapshot();
    assert_eq!(cells.len(), 16);
    assert!(cells.iter().all(|v| *v == 0 || *v == 2));
    assert!(g.can_shift(Operation::LEFT));
}

#[test]
fn from_draws_places_twos() {
    let g = Field::from_draws(2, 15, 10, &vec![true, false, false, true]);
    assert_eq!(g.snapshot(), vec![2, 0, 0, 2]);
    assert_eq!(g.size(), 2);
}

#[test]
fn full_board_without_equal_neighbours_is_over() {
    let g = board(2, vec![2, 4, 4, 2]);
    assert!(g.is_game_over());
    let g = board(3, vec![2, 4, 2, 4, 2, 4, 2, 4, 2]);
    assert!(g.is_game_over());
    let g = board(1, vec![2]);
    assert!(g.is_game_over());
}

#[test]
fn full_board_with_equal_neighbours_goes_on() {
    assert!(!board(2, vec![2, 2, 4, 8]).is_game_over());
    assert!(!board(2, vec![2, 4, 2, 8]).is_game_over());
    assert!(!board(2, vec![8, 4, 2, 2]).is_game_over());
    assert!(!board(2, vec![8, 2, 4, 2]).is_game_over());
}

#[test]
fn end_of_row_is_no_neighbour_of_next_row() {
    assert!(board(2, vec![2, 4, 4, 8]).is_game_over());
    assert!(board(3, vec![2, 4, 8, 8, 16, 32, 2, 4, 8]).is_game_over());
}

#[test]
fn board_with_an_empty_cell_goes_on() {
    assert!(!board(2, vec![2, 4, 4, 0]).is_game_over());
    assert!(!board(1, vec![0]).is_game_over());
}

#[test]
fn full_turn_on_a_small_board() {
    let mut g = board(2, vec![2, 2, 0, 0]);
    g.shift(Operation::LEFT);
    assert_eq!(g.snapshot(), vec![4, 0, 0, 0]);
    g.add_new();
    assert_eq!(g.get(0, 0), 4);

    let mut h = board(2, vec![2, 2, 0, 0]);
    let r = h.apply_turn_with(Operation::LEFT, &vec![true, true, false, false]);
    assert_eq!(r, Ok(TurnOutcome::Continued));
    assert_eq!(h.snapshot(), vec![4, 2, 0, 0]);

    let mut k = board(2, vec![2, 2, 0, 0]);
    let r = k.apply_turn(Operation::LEFT);
    assert_eq!(r, Ok(TurnOutcome::Continued));
    assert_eq!(k.get(0, 0), 4);
}

#[test]
fn invalid_direction_changes_nothing() {
    let cells = vec![2, 2, 0, 0, 4, 0, 4, 0, 0, 0, 0, 0, 2, 0, 0, 2];
    let mut g = board(4, cells.clone());
    assert_eq!(g.apply_turn(Operation::INVALID), Err(TurnError::InvalidDirection));
    assert_eq!(g.snapshot(), cells);
    assert!(!g.finished());
    let r = g.apply_turn_with(parse_direction("x"), &vec![true; 16]);
    assert_eq!(r, Err(TurnError::InvalidDirection));
    assert_eq!(g.snapshot(), cells);
    assert_eq!(g.update_field(Operation::INVALID), Err(TurnError::InvalidDirection));
    assert_eq!(g.snapshot(), cells);
    assert!(!g.finished());
}

#[test]
fn turn_that_fills_the_board_ends_the_game() {
    let mut g = board(2, vec![2, 0, 4, 8]);
    let r = g.apply_turn_with(Operation::RIGHT, &vec![true, false, false, false]);
    assert_eq!(g.snapshot(), vec![2, 2, 4, 8]);
    assert_eq!(r, Ok(TurnOutcome::Continued));
    let mut g = board(2, vec![4, 0, 8, 2]);
    let r = g.apply_turn_with(Operation::RIGHT, &vec![true, false, false, false]);
    assert_eq!(g.snapshot(), vec![2, 4, 8, 2]);
    assert_eq!(r, Ok(TurnOutcome::GameOver));
    assert!(g.finished());
    let r = g.apply_turn_with(Operation::LEFT, &vec![true; 4]);
    assert_eq!(r, Err(TurnError::TurnAfterGameOver));
    assert_eq!(g.snapshot(), vec![2, 4, 8, 2]);
    assert_eq!(g.apply_turn(Operation::INVALID), Err(TurnError::TurnAfterGameOver));
    assert_eq!(g.apply_turn(Operation::UP), Err(TurnError::TurnAfterGameOver));
    assert_eq!(g.snapshot(), vec![2, 4, 8, 2]);
}

#[test]
fn update_field_moves_then_spawns() {
    let mut g = board(2, vec![2, 2, 0, 0]);
    let r = g.update_field(Operation::LEFT);
    assert_eq!(r, Ok(TurnOutcome::Continued));
    let after = g.snapshot();
    assert_eq!(after[0], 4);
    assert!(after[1..].iter().all(|v| *v == 0 || *v == 2));
    assert!(!g.finished());
}

#[test]
fn update_field_changes_nothing_after_the_end() {
    let mut g = board(2, vec![4, 0, 8, 2]);
    let r = g.apply_turn_with(Operation::RIGHT, &vec![true, false, false, false]);
    assert_eq!(r, Ok(TurnOutcome::GameOver));
    g.set(0, 0, 2);
    g.set(0, 1, 2);
    g.set(1, 0, 0);
    g.set(1, 1, 0);
    assert!(g.finished());
    assert_eq!(g.update_field(Operation::LEFT), Err(TurnError::TurnAfterGameOver));
    assert_eq!(g.snapshot(), vec![2, 2, 0, 0]);
    assert_eq!(g.update_field(Operation::INVALID), Err(TurnError::TurnAfterGameOver));
    assert_eq!(g.snapshot(), vec![2, 2, 0, 0]);
    assert!(g.finished());
}

#[test]
fn update_field_ends_the_game_where_no_move_is_left() {
    let mut g = board(1, vec![2]);
    assert!(!g.finished());
    assert_eq!(g.update_field(Operation::UP), Ok(TurnOutcome::GameOver));
    assert!(g.finished());
    assert_eq!(g.snapshot(), vec![2]);
    let mut h = board(2, vec![2, 4, 4, 2]);
    assert_eq!(h.update_field(Operation::DOWN), Ok(TurnOutcome::GameOver));
    assert!(h.finished());
    assert_eq!(h.snapshot(), vec![2, 4, 4, 2]);
    assert_eq!(h.update_field(Operation::DOWN), Err(TurnError::TurnAfterGameOver));
}

#[test]
fn get_and_set_address_rows_and_columns() {
    let mut g = board(3, vec![0, 2, 4, 8, 16, 32, 64, 128, 256]);
    assert_eq!(g.size(), 3);
    assert_eq!(g.get(0, 0), 0);
    assert_eq!(g.get(0, 2), 4);
    assert_eq!(g.get(1, 0), 8);
    assert_eq!(g.get(2, 1), 128);
    g.set(1, 2, 512);
    assert_eq!(g.snapshot(), vec![0, 2, 4, 8, 16, 512, 64, 128, 256]);
}

#[test]
fn from_cells_rejects_what_is_no_board() {
    assert!(Field::from_cells(0, vec![]).is_none());
    assert!(Field::from_cells(2, vec![2, 2, 2]).is_none());
    assert!(Field::from_cells(2, vec![2, 2, 2, 3]).is_none());
    assert!(Field::from_cells(2, vec![2, 2, 2, -2]).is_none());
    assert!(Field::from_cells(2, vec![2, 2, 2, 1]).is_none());
    assert!(Field::from_cells(usize::MAX, vec![2]).is_none());
    assert!(Field::from_cells(2, vec![0, 2, 1024, 1073741824]).is_some());
}

#[test]
fn shift_is_refused_only_where_a_merge_overflows() {
    let top = 1073741824;
    let g = board(2, vec![top, 0, top, 2]);
    assert!(g.can_shift(Operation::LEFT));
    assert!(g.can_shift(Operation::RIGHT));
    assert!(!g.can_shift(Operation::UP));
    assert!(!g.can_shift(Operation::DOWN));
    assert!(g.can_shift(Operation::INVALID));
    let h = board(2, vec![top, 2, top, 0]);
    assert!(h.can_shift(Operation::LEFT));
    assert!(!h.can_shift(Operation::UP));
    let k = board(2, vec![top, top, 2, 2]);
    assert!(!k.can_shift(Operation::LEFT));
    assert!(!k.can_shift(Operation::RIGHT));
    assert!(k.can_shift(Operation::UP));
    let half = board(2, vec![536870912, 536870912, 536870912, 536870912]);
    assert!(half.can_shift(Operation::LEFT) && half.can_shift(Operation::DOWN));
}

#[test]
fn checked_slide_reports_overflow() {
    assert_eq!(checked_slide_line(&vec![1073741824, 1073741824]), None);
    assert_eq!(checked_slide_line(&vec![1073741824, 0, 1073741824, 2]), None);
    assert_eq!(checked_slide_line(&vec![i32::MIN, i32::MIN]), None);
    assert_eq!(checked_slide_line(&vec![1073741824, 2, 1073741824]), Some(vec![1073741824, 2, 1073741824]));
    assert_eq!(checked_slide_line(&vec![-1073741824, -1073741824]), Some(vec![i32::MIN, 0]));
    assert_eq!(checked_slide_line(&vec![2, 2, 2, 2]), Some(vec![4, 4, 0, 0]));
}

#[test]
fn tile_values_are_zero_and_powers_of_two() {
    assert!(is_tile_value(0));
    assert!(is_tile_value(2));
    assert!(is_tile_value(2048));
    assert!(is_tile_value(1073741824));
    assert!(!is_tile_value(1));
    assert!(!is_tile_value(6));
    assert!(!is_tile_value(-4));
    assert!(!is_tile_value(i32::MIN));
    assert!(!is_tile_value(i32::MAX));
}

#[test]
fn commands_map_to_directions() {
    assert_eq!(parse_direction("w"), Operation::UP);
    assert_eq!(parse_direction("a"), Operation::LEFT);
    assert_eq!(parse_direction("s"), Operation::DOWN);
    assert_eq!(parse_direction("d"), Operation::RIGHT);
    assert_eq!(parse_direction(""), Operation::INVALID);
    assert_eq!(parse_direction("W"), Operation::INVALID);
    assert_eq!(parse_direction("ww"), Operation::INVALID);
    assert_eq!(parse_direction("x"), Operation::INVALID);
    assert_eq!(parse_direction("w\n"), Operation::INVALID);
}

#[test]
fn index_moves_by_signed_offset() {
    assert_eq!(add(5, 1), Some(6));
    assert_eq!(add(5, -1), Some(4));
    assert_eq!(add(0, -1), None);
    assert_eq!(add(0, 0), Some(0));
    assert_eq!(add(usize::MAX, 1), None);
    assert_eq!(add(usize::MAX, -1), Some(usize::MAX - 1));
    assert_eq!(add(2147483648, i32::MIN), Some(0));
    assert_eq!(add(2147483647, i32::MIN), None);
}

#[test]
fn slide_keeps_the_sum_of_the_line() {
    for line in [
        vec![2, 2, 2, 2],
        vec![0, 2, 0, 2],
        vec![4, 0, 4, 8],
        vec![16, 16, 16, 0, 16],
        vec![0, 0, 0],
    ] {
        let sum: i32 = line.iter().sum();
        let slid = slide_line(&line);
        assert_eq!(slid.iter().sum::<i32>(), sum);
        assert_eq!(slid.len(), line.len());
    }
}

#[test]
fn slide_leaves_no_gap_before_a_tile() {
    for line in [vec![0, 2, 0, 2, 4], vec![2, 0, 0, 4, 4], vec![0, 0, 8, 0, 8], vec![4, 4, 4, 4, 4]] {
        let slid = slide_line(&line);
        let first_gap = slid.iter().position(|v| *v == 0).unwrap_or(slid.len());
        assert!(slid[first_gap..].iter().all(|v| *v == 0));
    }
    assert_eq!(slide_line(&vec![0, 2, 0, 2, 4]), vec![4, 4, 0, 0, 0]);
    assert_eq!(slide_line(&vec![4, 4, 4, 4, 4]), vec![8, 8, 4, 0, 0]);
}

#[test]
fn slide_accepts_values_that_are_no_tiles() {
    assert_eq!(slide_line(&vec![3, 3, 0, -5, -5]), vec![6, -10, 0, 0, 0]);
    assert_eq!(slide_line(&vec![i32::MAX, 0, i32::MIN]), vec![i32::MAX, i32::MIN, 0]);
}

#[test]
fn board_that_goes_on_has_a_shift_that_changes_it() {
    let ops = [Operation::LEFT, Operation::RIGHT, Operation::UP, Operation::DOWN];
    for cells in [
        vec![2, 4, 8, 16, 32, 64, 128, 256, 0],
        vec![0, 4, 8, 16, 32, 64, 128, 256, 2],
        vec![2, 4, 8, 16, 32, 64, 128, 256, 256],
        vec![2, 4, 8, 2, 32, 64, 128, 256, 512],
        vec![0, 0, 0, 0, 0, 0, 0, 0, 2],
    ] {
        assert!(!board(3, cells.clone()).is_game_over());
        let mut moved = false;
        for op in ops {
            let mut g = board(3, cells.clone());
            g.shift(op);
            moved = moved || g.snapshot() != cells;
        }
        assert!(moved);
    }
}

#[test]
fn empty_board_goes_on_though_nothing_moves() {
    let cells = vec![0; 9];
    assert!(!board(3, cells.clone()).is_game_over());
    let mut g = board(3, cells.clone());
    let r = g.apply_turn_with(Operation::DOWN, &vec![false; 9]);
    assert_eq!(r, Ok(TurnOutcome::Continued));
    assert_eq!(g.snapshot(), cells);
}

#[test]
fn single_cell_board() {
    let mut g = board(1, vec![0]);
    let r = g.apply_turn_with(Operation::UP, &vec![true]);
    assert_eq!(r, Ok(TurnOutcome::GameOver));
    assert_eq!(g.snapshot(), vec![2]);
    assert!(g.finished());
}

#[test]
fn saturated_row_stays_while_other_rows_move() {
    let cells = vec![2, 4, 8, 16, 0, 2, 2, 0, 4, 2, 4, 2, 0, 0, 0, 8];
    let mut g = board(4, cells.clone());
    g.shift_horizontal(1);
    assert_eq!(g.snapshot(), vec![2, 4, 8, 16, 4, 0, 0, 0, 4, 2, 4, 2, 8, 0, 0, 0]);
    let mut h = board(4, cells.clone());
    h.shift_horizontal(-1);
    assert_eq!(h.snapshot(), vec![2, 4, 8, 16, 0, 0, 0, 4, 4, 2, 4, 2, 0, 0, 0, 8]);
}

#[test]
fn saturated_column_stays_while_other_columns_move() {
    let cells = vec![2, 0, 4, 0, 4, 2, 2, 0, 8, 2, 4, 0, 16, 0, 2, 8];
    let mut g = board(4, cells.clone());
    g.shift_up();
    assert_eq!(g.snapshot(), vec![2, 4, 4, 8, 4, 0, 2, 0, 8, 0, 4, 0, 16, 0, 2, 0]);
    let mut h = board(4, cells.clone());
    h.shift_down();
    assert_eq!(h.snapshot(), vec![2, 0, 4, 0, 4, 0, 2, 0, 8, 0, 4, 0, 16, 4, 2, 8]);
}

#[test]
fn shift_keeps_the_sum_of_each_line() {
    let cells = vec![2, 2, 4, 0, 0, 0, 0, 0, 8, 8, 8, 8, 0, 16, 0, 16];
    for offset in [1, -1] {
        let mut g = board(4, cells.clone());
        g.shift_horizontal(offset);
        let after = g.snapshot();
        for r in 0..4 {
            let before_sum: i32 = cells[r * 4..r * 4 + 4].iter().sum();
            let after_sum: i32 = after[r * 4..r * 4 + 4].iter().sum();
            assert_eq!(after_sum, before_sum);
        }
        assert_eq!(after[4..8], [0, 0, 0, 0]);
    }
    for up in [true, false] {
        let mut g = board(4, cells.clone());
        if up {
            g.shift_up();
        } else {
            g.shift_down();
        }
        let after = g.snapshot();
        for c in 0..4 {
            let before_sum: i32 = (0..4).map(|r| cells[r * 4 + c]).sum();
            let after_sum: i32 = (0..4).map(|r| after[r * 4 + c]).sum();
            assert_eq!(after_sum, before_sum);
        }
    }
}
