use ltl::ltl_engine::board::{Board, Cell};
use ltl::ltl_engine::config::Config;
use ltl::ltl_engine::neighbourhood::Neighbourhood;
use rand::rngs::mock::StepRng;
use rand::Rng;

/// The number of workers the boards of these tests are cut for.
const CORES: usize = 4;

fn test_cells() -> Vec<Cell> {
    vec![0, 1, 2, 3, 4, 5, 6, 7, 8]
}

fn test_cells_default(size: usize) -> Vec<Cell> {
    vec![0; size * size]
}

fn test_config_moore_included() -> Config {
    Config { rr: 1, cc: 0, mm: 1, ss: (2, 3), bb: (3, 3), nn: Neighbourhood::Moore }
}

fn test_config_neumann_included() -> Config {
    Config { rr: 1, cc: 0, mm: 1, ss: (2, 3), bb: (3, 3), nn: Neighbourhood::Neumann }
}

fn test_config_conways() -> Config {
    Config { rr: 1, cc: 0, mm: 0, ss: (2, 3), bb: (3, 3), nn: Neighbourhood::Moore }
}

fn sorted(mut v: Vec<u8>) -> Vec<u8> {
    v.sort();
    v
}

/// Draws one state per cell from `rng`, as a front end does before `randomize`.
fn draws_for(board: &Board, rng: &mut StepRng) -> Vec<Cell> {
    let bound = board.state_count();
    (0..board.cell_count()).map(|_| rng.gen_range(0..bound)).collect()
}

#[test]
fn get_chunks_1_core() {
    let size = 100;
    let chunks = Board::get_chunks(size, 1);
    assert_eq!(chunks, vec![0..size * size]);
}

#[test]
fn get_chunks_2_cores() {
    let chunks = Board::get_chunks(100, 2);
    assert_eq!(chunks, vec![0..5000, 5000..10000]);
}

#[test]
fn get_chunks_8_cores() {
    let chunks = Board::get_chunks(3, 8);
    assert_eq!(chunks, vec![0..2, 2..3, 3..4, 4..5, 5..6, 6..7, 7..8, 8..9]);
}

#[test]
fn get_chunks_low_size_many_cores() {
    let chunks = Board::get_chunks(3, 70);
    assert_eq!(chunks, vec![0..1, 1..2, 2..3, 3..4, 4..5, 5..6, 6..7, 7..8, 8..9]);
}

#[test]
fn board_new() {
    let board = Board::new(3, test_config_conways(), CORES);
    let cells = test_cells_default(3);
    let config = test_config_conways();

    assert_eq!(*board.cells, cells);
    assert_eq!(board.config(), config);
}

#[test]
fn reset() {
    let mut board = Board::from_cells(test_config_conways(), test_cells(), CORES);
    let cells = test_cells_default(3);
    board.reset();

    assert_eq!(*board.cells, cells);
}

#[test]
fn get_cell() {
    let board = Board::from_cells(test_config_conways(), test_cells(), CORES);
    assert_eq!(board.get_cell(0, 0), 0);
    assert_eq!(board.get_cell(1, 1), 4);
    assert_eq!(board.get_cell(1, 2), 5);
}

#[test]
fn set_cell() {
    let mut board = Board::new(3, test_config_conways(), CORES);
    board.set_cell(0, 0, 1);
    assert_eq!(board.get_cell(0, 0), 1);
    board.set_cell(1, 2, 1);
    assert_eq!(board.get_cell(1, 2), 1);
}

#[test]
fn randomize() {
    let mut board = Board::new(3, test_config_conways(), CORES);
    let mut rnd = StepRng::new(u64::MAX, 0);
    let draws = draws_for(&board, &mut rnd);
    board.randomize(&draws);
    assert_eq!(*board.cells, vec![1; 9]);
}

#[test]
fn randomize_multistate() {
    let mut board = Board::from_cells(
        Config { rr: 1, cc: 5, mm: 0, ss: (2, 3), bb: (3, 3), nn: Neighbourhood::Moore },
        test_cells_default(3),
        CORES,
    );
    let mut rnd = StepRng::new(u64::MAX, 1);
    let draws = draws_for(&board, &mut rnd);
    board.randomize(&draws);
    let right = vec![4, 0, 0, 0, 0, 0, 0, 0, 0];
    assert_eq!(*board.cells, right);
}

#[test]
fn cell_up() {
    let mut board = Board::new(3, test_config_conways(), CORES);
    board.cell_up(0, 0);
    assert_eq!(board.get_cell(0, 0), 1);
    board.cell_up(0, 0);
    assert_eq!(board.get_cell(0, 0), 0);
}

#[test]
fn cell_up_multistate() {
    let mut board = Board::from_cells(
        Config { rr: 1, cc: 3, mm: 0, ss: (2, 3), bb: (3, 3), nn: Neighbourhood::Moore },
        test_cells_default(3),
        CORES,
    );
    board.cell_up(0, 0);
    assert_eq!(board.get_cell(0, 0), 1);
    board.cell_up(0, 0);
    assert_eq!(board.get_cell(0, 0), 2);
    board.cell_up(0, 0);
    assert_eq!(board.get_cell(0, 0), 0);
}

#[test]
fn cell_down() {
    let mut board = Board::new(3, test_config_conways(), CORES);
    board.set_cell(0, 0, 1);
    board.cell_down(0, 0);
    assert_eq!(board.get_cell(0, 0), 0);
}

#[test]
fn cell_down_zero() {
    let mut board = Board::new(3, test_config_conways(), CORES);
    board.cell_down(0, 0);
    assert_eq!(board.get_cell(0, 0), 0);
}

#[test]
fn cell_down_multistate() {
    let mut board = Board::from_cells(
        Config { rr: 1, cc: 3, mm: 0, ss: (2, 3), bb: (3, 3), nn: Neighbourhood::Moore },
        test_cells_default(3),
        CORES,
    );

    board.set_cell(0, 0, 2);

    board.cell_down(0, 0);
    assert_eq!(board.get_cell(0, 0), 1);
    board.cell_down(0, 0);
    assert_eq!(board.get_cell(0, 0), 0);
}

#[test]
fn get_neighbourhood_moore_with_center() {
    let config = Config { rr: 1, cc: 0, mm: 0, ss: (2, 3), bb: (3, 3), nn: Neighbourhood::Moore };
    let board = Board::from_cells(config, test_cells(), CORES);
    let neighbourhood = board.get_neighbourhood_moore(1, 1);
    assert_eq!(neighbourhood.len(), 8);

    let right: Vec<u8> = vec![0, 1, 2, 3, 5, 6, 7, 8];
    assert_eq!(sorted(neighbourhood)[..], right[..]);
}

#[test]
fn get_neighbourhood_moore_without_center() {
    let config = Config { rr: 1, cc: 0, mm: 1, ss: (2, 3), bb: (3, 3), nn: Neighbourhood::Moore };
    let board = Board::from_cells(config, test_cells(), CORES);
    let neighbourhood = board.get_neighbourhood_moore(1, 1);
    assert_eq!(neighbourhood.len(), 9);

    let right: Vec<u8> = sorted(vec![0, 1, 2, 3, 4, 5, 6, 7, 8]);
    assert_eq!(sorted(neighbourhood)[..], right[..]);
}

#[test]
fn get_neighbourhood_count_moore_without_center() {
    let config = Config { rr: 1, cc: 25, mm: 0, ss: (2, 3), bb: (3, 3), nn: Neighbourhood::Moore };
    let board = Board::from_cells(config, vec![0, 0, 0, 1, 2, 3, 4, 0, 0], CORES);
    assert_eq!(board.get_neighbourhood_count(1, 1), 3);
}

#[test]
fn get_neighbourhood_count_moore_empty() {
    let config = Config { rr: 1, cc: 25, mm: 0, ss: (2, 3), bb: (3, 3), nn: Neighbourhood::Moore };
    let board = Board::from_cells(config, test_cells_default(3), CORES);
    assert_eq!(board.get_neighbourhood_count(1, 1), 0);
}

#[test]
fn get_neighbourhood_count_moore_full() {
    let config = Config { rr: 1, cc: 25, mm: 1, ss: (2, 3), bb: (3, 3), nn: Neighbourhood::Moore };
    let board = Board::from_cells(config, vec![1, 2, 3, 4, 5, 6, 7, 8, 9], CORES);
    assert_eq!(board.get_neighbourhood_count(1, 1), 9);
}

#[test]
fn get_neighbourhood_count_neumann_with_center() {
    let config = Config { rr: 1, cc: 25, mm: 1, ss: (2, 3), bb: (3, 3), nn: Neighbourhood::Neumann };
    let board = Board::from_cells(config, vec![0, 5, 0, 1, 2, 3, 4, 0, 0], CORES);
    assert_eq!(board.get_neighbourhood_count(1, 1), 4);
}

#[test]
fn get_neighbourhood_count_neumann_without_center() {
    let config = Config { rr: 1, cc: 25, mm: 0, ss: (2, 3), bb: (3, 3), nn: Neighbourhood::Neumann };
    let board = Board::from_cells(config, vec![0, 5, 0, 1, 2, 3, 4, 0, 0], CORES);
    assert_eq!(board.get_neighbourhood_count(1, 1), 3);
}

#[test]
fn get_neighbourhood_count_neumann_empty() {
    let config = Config { rr: 1, cc: 25, mm: 0, ss: (2, 3), bb: (3, 3), nn: Neighbourhood::Neumann };
    let board = Board::from_cells(config, test_cells_default(3), CORES);
    assert_eq!(board.get_neighbourhood_count(1, 1), 0);
}

#[test]
fn get_neighbourhood_count_neumann_full() {
    let config = Config { rr: 1, cc: 25, mm: 1, ss: (2, 3), bb: (3, 3), nn: Neighbourhood::Neumann };
    let board = Board::from_cells(config, vec![1, 2, 3, 4, 5, 6, 7, 8, 9], CORES);
    assert_eq!(board.get_neighbourhood_count(1, 1), 5);
}

#[test]
fn update_all_alive() {
    let config = Config { rr: 1, cc: 1, mm: 0, ss: (2, 100), bb: (0, 2), nn: Neighbourhood::Moore };
    let mut board = Board::from_cells(config, vec![0; 100], CORES);
    let right = vec![1; 100];
    board.update();

    assert_eq!(board.cells, right);
}

#[test]
fn update_all_dead() {
    let config = Config { rr: 1, cc: 1, mm: 0, ss: (100, 123), bb: (0, 2), nn: Neighbourhood::Moore };
    let mut board = Board::from_cells(config, vec![2; 100], CORES);
    let right = vec![0; 100];
    board.update();

    assert_eq!(*board.cells, right);
}

#[test]
fn update_aging() {
    let mut board = Board::from_cells(
        Config { rr: 1, cc: 3, mm: 0, ss: (2, 3), bb: (3, 3), nn: Neighbourhood::Moore },
        vec![1; 9],
        CORES,
    );
    board.update();
    let right = vec![1, 2, 1, 2, 2, 2, 1, 2, 1];
    assert_eq!(*board.cells, right);
}

#[test]
fn update_stick_repeat() {
    let config = test_config_conways();
    let mut board = Board::new(3, config, CORES);
    let stick_vertical = vec![0, 0, 0, 1, 1, 1, 0, 0, 0];
    let stick_horizontal = vec![0, 1, 0, 0, 1, 0, 0, 1, 0];

    board.cells = stick_vertical.clone();
    board.update();
    assert_eq!(*board.cells.clone(), stick_horizontal.clone());
    board.update();
    assert_eq!(*board.cells, stick_vertical);
    board.update();
    assert_eq!(*board.cells, stick_horizontal);
}

#[test]
fn get_neighbourhood_moore_left_top_corner() {
    let board = Board::from_cells(test_config_moore_included(), test_cells(), CORES);
    let neighbourhood = board.get_neighbourhood_moore(0, 0);
    assert_eq!(neighbourhood.len(), 4);
    assert_eq!(sorted(neighbourhood)[..], sorted(vec![0, 1, 3, 4])[..]);
}

#[test]
fn get_neighbourhood_moore_right_top_corner() {
    let board = Board::from_cells(test_config_moore_included(), test_cells(), CORES);
    let neighbourhood = board.get_neighbourhood_moore(2, 0);
    assert_eq!(neighbourhood.len(), 4);
    assert_eq!(sorted(neighbourhood)[..], sorted(vec![3, 6, 4, 7])[..]);
}

#[test]
fn get_neighbourhood_moore_left_bottom_corner() {
    let board = Board::from_cells(test_config_moore_included(), test_cells(), CORES);
    let neighbourhood = board.get_neighbourhood_moore(0, 2);
    assert_eq!(neighbourhood.len(), 4);
    assert_eq!(sorted(neighbourhood)[..], sorted(vec![1, 4, 2, 5])[..]);
}

#[test]
fn get_neighbourhood_moore_right_bottom_corner() {
    let board = Board::from_cells(test_config_moore_included(), test_cells(), CORES);
    let neighbourhood = board.get_neighbourhood_moore(2, 2);
    assert_eq!(neighbourhood.len(), 4);
    assert_eq!(sorted(neighbourhood)[..], sorted(vec![4, 7, 5, 8])[..]);
}

#[test]
fn get_neighbourhood_moore_bigger_radius() {
    let config = Config { rr: 2, cc: 1, mm: 1, ss: (2, 3), bb: (3, 3), nn: Neighbourhood::Moore };
    // A 7 by 7 board holding 0 to 48, row after row.
    let cells = (0..49).collect();
    let board = Board::from_cells(config, cells, CORES);
    let neighbourhood = board.get_neighbourhood_moore(3, 3);
    assert_eq!(neighbourhood.len(), 25);

    let right: Vec<u8> = vec![
        8, 9, 10, 11, 12, 15, 16, 17, 18, 19, 22, 23, 24, 25, 26, 29, 30, 31, 32, 33, 36, 37, 38,
        39, 40,
    ];
    assert_eq!(sorted(neighbourhood)[..], sorted(right)[..]);
}

#[test]
fn get_neighbourhood_neumann_with_center() {
    let config = Config { rr: 1, cc: 0, mm: 1, ss: (2, 3), bb: (3, 3), nn: Neighbourhood::Neumann };
    let board = Board::from_cells(config, test_cells(), CORES);
    let neighbourhood = board.get_neighbourhood_neumann(1, 1);
    assert_eq!(neighbourhood.len(), 5);
    assert_eq!(sorted(neighbourhood)[..], sorted(vec![1, 3, 4, 5, 7])[..]);
}

#[test]
fn get_neighbourhood_neumann_without_center() {
    let config = Config { rr: 1, cc: 0, mm: 0, ss: (2, 3), bb: (3, 3), nn: Neighbourhood::Neumann };
    let board = Board::from_cells(config, test_cells(), CORES);
    let neighbourhood = board.get_neighbourhood_neumann(1, 1);
    assert_eq!(neighbourhood.len(), 4);
    assert_eq!(sorted(neighbourhood)[..], sorted(vec![1, 3, 5, 7])[..]);
}

#[test]
fn get_neighbourhood_neumann_left_top_corner() {
    let board = Board::from_cells(test_config_neumann_included(), test_cells(), CORES);
    let neighbourhood = board.get_neighbourhood_neumann(0, 0);
    assert_eq!(neighbourhood.len(), 3);
    assert_eq!(sorted(neighbourhood)[..], sorted(vec![0, 1, 3])[..]);
}

#[test]
fn get_neighbourhood_neumann_right_top_corner() {
    let board = Board::from_cells(test_config_neumann_included(), test_cells(), CORES);
    let neighbourhood = board.get_neighbourhood_neumann(2, 0);
    assert_eq!(neighbourhood.len(), 3);
    assert_eq!(sorted(neighbourhood)[..], sorted(vec![3, 6, 7])[..]);
}

#[test]
fn get_neighbourhood_neumann_left_bottom_corner() {
    let board = Board::from_cells(test_config_neumann_included(), test_cells(), CORES);
    let neighbourhood = board.get_neighbourhood_neumann(0, 2);
    assert_eq!(neighbourhood.len(), 3);
    assert_eq!(sorted(neighbourhood)[..], sorted(vec![1, 2, 5])[..]);
}

#[test]
fn get_neighbourhood_neumann_right_bottom_corner() {
    let board = Board::from_cells(test_config_neumann_included(), test_cells(), CORES);
    let neighbourhood = board.get_neighbourhood_neumann(2, 2);
    assert_eq!(neighbourhood.len(), 3);
    assert_eq!(sorted(neighbourhood)[..], sorted(vec![5, 7, 8])[..]);
}

#[test]
fn get_neighbourhood_neumann_bigger_radius() {
    let config = Config { rr: 2, cc: 1, mm: 1, ss: (2, 3), bb: (3, 3), nn: Neighbourhood::Neumann };
    let cells = (0..49).collect();
    let board = Board::from_cells(config, cells, CORES);
    let neighbourhood = board.get_neighbourhood_neumann(3, 3);
    assert_eq!(neighbourhood.len(), 13);

    let right: Vec<u8> = vec![10, 16, 17, 18, 22, 23, 24, 25, 26, 30, 31, 32, 38];
    assert_eq!(sorted(neighbourhood)[..], sorted(right)[..]);
}

#[test]
fn get_neighbourhood_count_moore_with_center() {
    let config = Config { rr: 1, cc: 25, mm: 1, ss: (2, 3), bb: (3, 3), nn: Neighbourhood::Moore };
    let board = Board::from_cells(config, vec![0, 0, 0, 1, 2, 3, 4, 0, 0], CORES);
    assert_eq!(board.get_neighbourhood_count(1, 1), 4);
}
