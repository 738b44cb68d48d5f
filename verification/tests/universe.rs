use game_of_life::universe::next_state;
use game_of_life::Universe;

fn empty(width: u32, height: u32) -> Universe {
    Universe::new(width, height, &[])
}

fn alive(universe: &Universe, row: u32, col: u32) -> bool {
    let index = (row * universe.width() + col) as usize;
    universe.get_cells().contains(index)
}

fn live_cells(universe: &Universe) -> Vec<(u32, u32)> {
    let mut cells = Vec::new();
    for row in 0..universe.height() {
        for col in 0..universe.width() {
            if alive(universe, row, col) {
                cells.push((row, col));
            }
        }
    }
    cells
}

#[test]
fn new_seeds_cells_in_row_major_order() {
    let universe = Universe::new(3, 2, &[true, false, false, false, true, true]);
    assert_eq!(universe.width(), 3);
    assert_eq!(universe.height(), 2);
    assert_eq!(universe.get_cells().len(), 6);
    assert_eq!(live_cells(&universe), vec![(0, 0), (1, 1), (1, 2)]);
}

#[test]
fn new_with_a_short_seed_leaves_the_rest_dead() {
    let universe = Universe::new(2, 2, &[false, true]);
    assert_eq!(live_cells(&universe), vec![(0, 1)]);
}

#[test]
fn new_ignores_seed_entries_past_the_last_cell() {
    let universe = Universe::new(1, 2, &[true, true, true, true]);
    assert_eq!(universe.get_cells().len(), 2);
    assert_eq!(live_cells(&universe), vec![(0, 0), (1, 0)]);
}

#[test]
fn new_without_cells_is_empty() {
    for (width, height) in [(0, 0), (0, 5), (5, 0)] {
        let universe = Universe::new(width, height, &[true, true]);
        assert_eq!(universe.width(), width);
        assert_eq!(universe.height(), height);
        assert_eq!(universe.get_cells().len(), 0);
        assert_eq!(universe.cells().len(), 0);
        assert_eq!(universe.render(), "");
    }
}

#[test]
fn operations_on_a_universe_without_cells_do_nothing() {
    for (width, height) in [(0, 0), (0, 3), (3, 0)] {
        let mut universe = empty(width, height);
        universe.tick();
        universe.toggle_cell(1, 1);
        universe.set_cells(&[(0, 0), (2, 2)]);
        universe.put_glider(1, 1);
        universe.put_pulsar(1, 1);
        universe.reset(&[true, true, true]);
        universe.empty_cells();
        assert_eq!(universe.width(), width);
        assert_eq!(universe.height(), height);
        assert_eq!(universe.get_cells().len(), 0);
        assert_eq!(universe.render(), "");
    }
}

#[test]
fn reset_reseeds_every_cell_and_keeps_dimensions() {
    let mut universe = Universe::new(2, 2, &[true, true, true, true]);
    universe.reset(&[false, true, false]);
    assert_eq!(universe.width(), 2);
    assert_eq!(universe.height(), 2);
    assert_eq!(live_cells(&universe), vec![(0, 1)]);
}

#[test]
fn dimensions_survive_every_operation() {
    let mut universe = Universe::new(7, 5, &[true, false, true]);
    universe.tick();
    universe.toggle_cell(2, 3);
    universe.set_cells(&[(1, 1), (4, 6)]);
    universe.put_glider(0, 0);
    universe.put_pulsar(3, 3);
    universe.tick();
    universe.reset(&[true; 35]);
    universe.empty_cells();
    universe.tick();
    assert_eq!(universe.width(), 7);
    assert_eq!(universe.height(), 5);
    assert_eq!(universe.get_cells().len(), 35);
}

#[test]
fn toggle_cell_flips_one_cell() {
    let mut universe = empty(4, 3);
    universe.toggle_cell(1, 2);
    assert_eq!(live_cells(&universe), vec![(1, 2)]);
    universe.toggle_cell(2, 0);
    assert_eq!(live_cells(&universe), vec![(1, 2), (2, 0)]);
    universe.toggle_cell(1, 2);
    assert_eq!(live_cells(&universe), vec![(2, 0)]);
}

#[test]
fn toggle_cell_wraps_coordinates_past_the_edge() {
    let mut universe = empty(4, 3);
    universe.toggle_cell(3, 4);
    assert_eq!(live_cells(&universe), vec![(0, 0)]);
    universe.toggle_cell(7, 9);
    assert_eq!(live_cells(&universe), vec![(0, 0), (1, 1)]);
    universe.toggle_cell(u32::MAX, u32::MAX);
    // u32::MAX is 0 modulo 3 and 3 modulo 4
    assert_eq!(live_cells(&universe), vec![(0, 0), (0, 3), (1, 1)]);
}

#[test]
fn set_cells_lights_the_listed_cells_only() {
    let mut universe = Universe::new(3, 3, &[false, false, false, false, true]);
    universe.set_cells(&[(0, 2), (2, 0), (0, 2), (1, 1)]);
    assert_eq!(live_cells(&universe), vec![(0, 2), (1, 1), (2, 0)]);
    universe.set_cells(&[(0, 2), (2, 0), (0, 2), (1, 1)]);
    assert_eq!(live_cells(&universe), vec![(0, 2), (1, 1), (2, 0)]);
    universe.set_cells(&[]);
    assert_eq!(live_cells(&universe), vec![(0, 2), (1, 1), (2, 0)]);
}

#[test]
fn set_cells_wraps_coordinates_past_the_edge() {
    let mut universe = empty(3, 2);
    universe.set_cells(&[(2, 3), (5, 7)]);
    assert_eq!(live_cells(&universe), vec![(0, 0), (1, 1)]);
}

#[test]
fn empty_cells_kills_every_cell() {
    let mut universe = Universe::new(5, 4, &[true; 20]);
    assert_eq!(live_cells(&universe).len(), 20);
    universe.empty_cells();
    assert_eq!(live_cells(&universe), vec![]);
    assert_eq!(universe.width(), 5);
    assert_eq!(universe.height(), 4);
    for index in 0..20 {
        assert!(!universe.get_cells().contains(index));
    }
    universe.empty_cells();
    assert_eq!(live_cells(&universe), vec![]);
}

#[test]
fn render_starts_each_row_with_a_line_break() {
    let universe = Universe::new(3, 2, &[true, false, false, false, true, true]);
    assert_eq!(universe.render(), "\n◻◼◼\n◼◻◻");
}

#[test]
fn render_of_one_dead_cell() {
    assert_eq!(empty(1, 1).render(), "\n◼");
}

#[test]
fn cells_packs_thirty_two_cells_to_a_word() {
    let mut universe = empty(33, 2);
    assert_eq!(universe.cells(), &[0, 0, 0]);
    universe.set_cells(&[(0, 0), (0, 5), (0, 32), (1, 32)]);
    // cell (0, 32) is bit 32, cell (1, 32) is bit 65
    assert_eq!(universe.cells(), &[0b10_0001, 1, 0b10]);
    assert_eq!(universe.cells().len(), (33 * 2 + 31) / 32);
}

#[test]
fn get_cells_reads_by_flat_index() {
    let mut universe = empty(4, 3);
    universe.toggle_cell(2, 1);
    let cells = universe.get_cells();
    assert_eq!(cells.len(), 12);
    assert!(cells.contains(2 * 4 + 1));
    assert_eq!(cells.count_ones(..), 1);
}

#[test]
fn next_state_follows_the_rule() {
    for neighbors in 0..=8u8 {
        assert_eq!(next_state(true, neighbors), neighbors == 2 || neighbors == 3);
        assert_eq!(next_state(false, neighbors), neighbors == 3);
    }
}

#[test]
fn a_live_cell_with_no_or_one_neighbor_dies() {
    let mut universe = empty(5, 5);
    universe.set_cells(&[(2, 2)]);
    universe.tick();
    assert_eq!(live_cells(&universe), vec![]);

    let mut universe = empty(5, 5);
    universe.set_cells(&[(2, 2), (2, 3)]);
    universe.tick();
    assert_eq!(live_cells(&universe), vec![]);
}

#[test]
fn a_live_cell_with_two_or_three_neighbors_survives() {
    let mut universe = empty(6, 6);
    universe.set_cells(&[(1, 1), (2, 2), (3, 3)]);
    universe.tick();
    assert!(alive(&universe, 2, 2));

    let mut universe = empty(6, 6);
    universe.set_cells(&[(1, 1), (2, 2), (3, 3), (1, 3)]);
    universe.tick();
    assert!(alive(&universe, 2, 2));
}

#[test]
fn a_live_cell_with_four_neighbors_dies() {
    let mut universe = empty(6, 6);
    universe.set_cells(&[(1, 1), (2, 2), (3, 3), (1, 3), (3, 1)]);
    universe.tick();
    assert!(!alive(&universe, 2, 2));
}

#[test]
fn a_dead_cell_with_three_neighbors_is_born() {
    let mut universe = empty(6, 6);
    universe.set_cells(&[(1, 1), (3, 3), (1, 3)]);
    universe.tick();
    assert!(alive(&universe, 2, 2));
}

#[test]
fn a_dead_cell_with_two_or_four_neighbors_stays_dead() {
    let mut universe = empty(6, 6);
    universe.set_cells(&[(1, 1), (3, 3)]);
    universe.tick();
    assert!(!alive(&universe, 2, 2));

    let mut universe = empty(6, 6);
    universe.set_cells(&[(1, 1), (3, 3), (1, 3), (3, 1)]);
    universe.tick();
    assert!(!alive(&universe, 2, 2));
}

#[test]
fn the_corner_counts_neighbors_across_the_edges() {
    // the neighbours of (0, 0) above, to the left, and above-left all lie
    // across an edge
    let mut universe = empty(6, 5);
    universe.set_cells(&[(4, 5), (4, 0), (0, 5)]);
    universe.tick();
    assert!(alive(&universe, 0, 0));

    // each of them alone, with the corner alive, is one neighbour: too few
    for cell in [(4, 5), (4, 0), (0, 5)] {
        let mut universe = empty(6, 5);
        universe.set_cells(&[(0, 0), cell]);
        universe.tick();
        assert!(!alive(&universe, 0, 0));
    }

    // any two of them keep a live corner alive
    for pair in [[(4, 5), (4, 0)], [(4, 5), (0, 5)], [(4, 0), (0, 5)]] {
        let mut universe = empty(6, 5);
        universe.set_cells(&[(0, 0)]);
        universe.set_cells(&pair);
        universe.tick();
        assert!(alive(&universe, 0, 0));
    }
}

#[test]
fn on_one_cell_the_cell_is_its_own_neighbor_eight_times() {
    let mut universe = Universe::new(1, 1, &[true]);
    universe.tick();
    assert_eq!(live_cells(&universe), vec![]);
}

#[test]
fn on_two_by_two_every_offset_counts() {
    // each cell sees the one live cell at four of its eight offsets, or at
    // two, or (the live cell itself) at none
    let mut universe = Universe::new(2, 2, &[true, false, false, false]);
    universe.tick();
    assert_eq!(live_cells(&universe), vec![]);
    // three live cells: the dead one sees each of them at least twice
    let mut universe = Universe::new(2, 2, &[true, true, true, false]);
    universe.tick();
    assert_eq!(live_cells(&universe), vec![]);
}

#[test]
fn tick_reads_only_the_old_generation() {
    // a row of three in the top row: were the step done in place, the
    // cells below would see the top row already changed
    let mut universe = empty(5, 5);
    universe.set_cells(&[(0, 1), (0, 2), (0, 3)]);
    universe.tick();
    assert_eq!(live_cells(&universe), vec![(0, 2), (1, 2), (4, 2)]);
}

#[test]
fn the_block_is_a_still_life() {
    for (width, height) in [(3, 3), (4, 4), (6, 5)] {
        for row in 0..height {
            for col in 0..width {
                let mut universe = empty(width, height);
                universe.set_cells(&[(row, col), (row, col + 1), (row + 1, col), (row + 1, col + 1)]);
                let before = live_cells(&universe);
                assert_eq!(before.len(), 4);
                universe.tick();
                assert_eq!(live_cells(&universe), before);
            }
        }
    }
}

#[test]
fn the_block_dies_on_two_by_two() {
    let mut universe = Universe::new(2, 2, &[true; 4]);
    universe.tick();
    assert_eq!(live_cells(&universe), vec![]);
}

#[test]
fn the_blinker_has_period_two() {
    let mut universe = empty(5, 5);
    universe.set_cells(&[(2, 1), (2, 2), (2, 3)]);
    universe.tick();
    assert_eq!(live_cells(&universe), vec![(1, 2), (2, 2), (3, 2)]);
    universe.tick();
    assert_eq!(live_cells(&universe), vec![(2, 1), (2, 2), (2, 3)]);
    universe.tick();
    assert_eq!(live_cells(&universe), vec![(1, 2), (2, 2), (3, 2)]);
}

#[test]
fn the_blinker_oscillates_across_the_edge() {
    let mut universe = empty(4, 4);
    universe.set_cells(&[(0, 3), (0, 0), (0, 1)]);
    universe.tick();
    assert_eq!(live_cells(&universe), vec![(0, 0), (1, 0), (3, 0)]);
    universe.tick();
    assert_eq!(live_cells(&universe), vec![(0, 0), (0, 1), (0, 3)]);
}

#[test]
fn put_glider_stamps_the_five_cells() {
    let mut universe = empty(6, 6);
    universe.put_glider(2, 3);
    assert_eq!(live_cells(&universe), vec![(1, 3), (2, 4), (3, 2), (3, 3), (3, 4)]);
    assert_eq!(
        universe.render(),
        "\n◼◼◼◼◼◼\n◼◼◼◻◼◼\n◼◼◼◼◻◼\n◼◼◻◻◻◼\n◼◼◼◼◼◼\n◼◼◼◼◼◼"
    );
}

#[test]
fn put_glider_wraps_round_the_corner() {
    let mut universe = empty(5, 5);
    universe.put_glider(0, 0);
    assert_eq!(live_cells(&universe), vec![(0, 1), (1, 0), (1, 1), (1, 4), (4, 0)]);
    let mut universe = empty(5, 5);
    universe.put_glider(4, 4);
    assert_eq!(live_cells(&universe), vec![(0, 0), (0, 3), (0, 4), (3, 4), (4, 0)]);
}

#[test]
fn put_glider_takes_coordinates_past_the_edge() {
    let mut wrapped = empty(5, 6);
    wrapped.put_glider(6 + 2, 5 + 1);
    let mut plain = empty(5, 6);
    plain.put_glider(2, 1);
    assert_eq!(live_cells(&wrapped), live_cells(&plain));
    let mut far = empty(5, 6);
    far.put_glider(u32::MAX, u32::MAX);
    // u32::MAX is 3 modulo 6 and 0 modulo 5
    let mut near = empty(5, 6);
    near.put_glider(3, 0);
    assert_eq!(live_cells(&far), live_cells(&near));
}

#[test]
fn put_glider_on_a_torus_smaller_than_the_glider() {
    let mut universe = empty(2, 2);
    universe.put_glider(0, 0);
    // rows -1, 0, 1 wrap to 1, 0, 1 and columns -1, 0, 1 to 1, 0, 1
    assert_eq!(live_cells(&universe), vec![(0, 1), (1, 0), (1, 1)]);
    let mut universe = empty(1, 1);
    universe.put_glider(0, 0);
    assert_eq!(live_cells(&universe), vec![(0, 0)]);
}

#[test]
fn put_glider_merges_into_what_is_there() {
    let mut universe = empty(6, 6);
    // (2, 3) is the dead centre of the glider, (1, 2) a dead corner of it,
    // (5, 5) lies outside it, (3, 3) is one of its live cells
    universe.set_cells(&[(2, 3), (1, 2), (5, 5), (3, 3)]);
    universe.put_glider(2, 3);
    assert_eq!(
        live_cells(&universe),
        vec![(1, 2), (1, 3), (2, 3), (2, 4), (3, 2), (3, 3), (3, 4), (5, 5)]
    );
}

#[test]
fn the_glider_moves_one_down_and_one_right_in_four_ticks() {
    for (width, height) in [(5, 5), (6, 5), (5, 7), (8, 8)] {
        for row in 0..height {
            for col in 0..width {
                let mut universe = empty(width, height);
                universe.put_glider(row, col);
                for _ in 0..4 {
                    universe.tick();
                }
                let mut moved = empty(width, height);
                moved.put_glider((row + 1) % height, (col + 1) % width);
                assert_eq!(live_cells(&universe), live_cells(&moved));
                assert_eq!(live_cells(&universe).len(), 5);
            }
        }
    }
}

#[test]
fn the_glider_goes_through_its_phases() {
    let mut universe = empty(6, 6);
    universe.put_glider(2, 2);
    universe.tick();
    assert_eq!(live_cells(&universe), vec![(2, 1), (2, 3), (3, 2), (3, 3), (4, 2)]);
    universe.tick();
    assert_eq!(live_cells(&universe), vec![(2, 3), (3, 1), (3, 3), (4, 2), (4, 3)]);
    universe.tick();
    assert_eq!(live_cells(&universe), vec![(2, 2), (3, 3), (3, 4), (4, 2), (4, 3)]);
    universe.tick();
    assert_eq!(live_cells(&universe), vec![(2, 3), (3, 4), (4, 2), (4, 3), (4, 4)]);
}

#[test]
fn put_pulsar_stamps_the_classic_layout() {
    let mut universe = empty(15, 15);
    universe.put_pulsar(7, 7);
    let expected = "\n\
        ◼◼◼◼◼◼◼◼◼◼◼◼◼◼◼\n\
        ◼◼◼◻◻◻◼◼◼◻◻◻◼◼◼\n\
        ◼◼◼◼◼◼◼◼◼◼◼◼◼◼◼\n\
        ◼◻◼◼◼◼◻◼◻◼◼◼◼◻◼\n\
        ◼◻◼◼◼◼◻◼◻◼◼◼◼◻◼\n\
        ◼◻◼◼◼◼◻◼◻◼◼◼◼◻◼\n\
        ◼◼◼◻◻◻◼◼◼◻◻◻◼◼◼\n\
        ◼◼◼◼◼◼◼◼◼◼◼◼◼◼◼\n\
        ◼◼◼◻◻◻◼◼◼◻◻◻◼◼◼\n\
        ◼◻◼◼◼◼◻◼◻◼◼◼◼◻◼\n\
        ◼◻◼◼◼◼◻◼◻◼◼◼◼◻◼\n\
        ◼◻◼◼◼◼◻◼◻◼◼◼◼◻◼\n\
        ◼◼◼◼◼◼◼◼◼◼◼◼◼◼◼\n\
        ◼◼◼◻◻◻◼◼◼◻◻◻◼◼◼\n\
        ◼◼◼◼◼◼◼◼◼◼◼◼◼◼◼";
    assert_eq!(universe.render(), expected);
    assert_eq!(live_cells(&universe).len(), 48);
}

#[test]
fn the_pulsar_has_period_three() {
    let mut universe = empty(17, 17);
    universe.put_pulsar(8, 8);
    let start = live_cells(&universe);
    universe.tick();
    let first = live_cells(&universe);
    assert_ne!(first, start);
    universe.tick();
    let second = live_cells(&universe);
    assert_ne!(second, start);
    assert_ne!(second, first);
    universe.tick();
    assert_eq!(live_cells(&universe), start);
}

#[test]
fn put_pulsar_wraps_round_the_edges() {
    let mut universe = empty(20, 20);
    universe.put_pulsar(0, 0);
    let mut expected = empty(20, 20);
    expected.put_pulsar(10, 10);
    let moved: Vec<(u32, u32)> =
        live_cells(&expected).iter().map(|&(r, c)| ((r + 10) % 20, (c + 10) % 20)).collect();
    let mut sorted = moved.clone();
    sorted.sort();
    assert_eq!(live_cells(&universe), sorted);
    assert_eq!(live_cells(&universe).len(), 48);
}

#[test]
fn put_pulsar_on_a_torus_smaller_than_the_pulsar() {
    let mut universe = empty(4, 3);
    universe.put_pulsar(0, 0);
    // entry (i, j) of the pulsar lands on ((i - 6) mod 3, (j - 6) mod 4)
    let bars = [2, 3, 4, 8, 9, 10];
    let posts = [0, 5, 7, 12];
    let mut expected = Vec::new();
    for row in 0..3u32 {
        for col in 0..4u32 {
            let mut hit = false;
            for i in 0..13u32 {
                for j in 0..13u32 {
                    let live = (posts.contains(&i) && bars.contains(&j))
                        || (bars.contains(&i) && posts.contains(&j));
                    if live && (i + 3 * 2 - 6) % 3 == row && (j + 4 * 2 - 6) % 4 == col {
                        hit = true;
                    }
                }
            }
            if hit {
                expected.push((row, col));
            }
        }
    }
    assert_eq!(live_cells(&universe), expected);
}

#[test]
fn put_pulsar_merges_into_what_is_there() {
    let mut universe = empty(15, 15);
    // (7, 7) is the dead centre of the pulsar, (0, 0) lies outside it
    universe.set_cells(&[(7, 7), (0, 0)]);
    universe.put_pulsar(7, 7);
    assert!(alive(&universe, 7, 7));
    assert!(alive(&universe, 0, 0));
    assert_eq!(live_cells(&universe).len(), 50);
}

#[test]
fn the_pulsar_needs_sixteen_rows_and_columns() {
    let mut universe = empty(16, 16);
    universe.put_pulsar(3, 12);
    let start = live_cells(&universe);
    assert_eq!(start.len(), 48);
    for _ in 0..3 {
        universe.tick();
    }
    assert_eq!(live_cells(&universe), start);

    let mut universe = empty(15, 16);
    universe.put_pulsar(3, 12);
    let start = live_cells(&universe);
    for _ in 0..3 {
        universe.tick();
    }
    assert_ne!(live_cells(&universe), start);
}

#[test]
fn the_glider_needs_five_rows_and_columns() {
    let mut universe = empty(5, 4);
    universe.put_glider(1, 1);
    for _ in 0..4 {
        universe.tick();
    }
    let mut moved = empty(5, 4);
    moved.put_glider(2, 2);
    assert_ne!(live_cells(&universe), live_cells(&moved));
}

#[test]
fn toggling_twice_gives_the_cell_back() {
    let mut universe = Universe::new(3, 3, &[true, false, true, false, true]);
    let before = live_cells(&universe);
    universe.toggle_cell(1, 1);
    assert_ne!(live_cells(&universe), before);
    universe.toggle_cell(4, 4);
    assert_eq!(live_cells(&universe), before);
}

#[test]
fn stamping_twice_is_stamping_once() {
    let mut universe = empty(9, 9);
    universe.put_glider(4, 4);
    let once = live_cells(&universe);
    universe.put_glider(4, 4);
    assert_eq!(live_cells(&universe), once);
}

#[test]
fn tick_many_times_keeps_the_number_of_cells() {
    let mut universe = Universe::new(9, 7, &[true, true, false, true, false, false, true, true]);
    for _ in 0..20 {
        universe.tick();
        assert_eq!(universe.get_cells().len(), 63);
        assert_eq!(universe.cells().len(), 2);
    }
}
