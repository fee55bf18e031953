use ltl::board::Board;
use ltl::config::Config;
use ltl::ltl_engine::config as engine_config;
use ltl::ltl_engine::neighbourhood as engine;
use ltl::neighbourhood::Neighbourhood;

#[test]
fn neighbourhood_conversion_round_trip() {
    for n in [Neighbourhood::Neumann, Neighbourhood::Moore] {
        assert_eq!(Neighbourhood::from_neighbourhood(n.to_neighbourhood()), n);
    }
    for m in [engine::Neighbourhood::Neumann, engine::Neighbourhood::Moore] {
        assert_eq!(Neighbourhood::from_neighbourhood(m).to_neighbourhood(), m);
    }
    assert_eq!(Neighbourhood::Moore.to_neighbourhood(), engine::Neighbourhood::Moore);
    assert_eq!(Neighbourhood::from_neighbourhood(engine::Neighbourhood::Neumann), Neighbourhood::Neumann);
}

#[test]
fn config_getters_give_back_the_rule() {
    let config = Config::new(2, 5, 1, &[3, 4], &[6, 7, 8], Neighbourhood::Neumann);
    assert_eq!(config.rr(), 2);
    assert_eq!(config.cc(), 5);
    assert_eq!(config.mm(), 1);
    assert_eq!(config.ss(), vec![3, 4]);
    assert_eq!(config.bb(), vec![6, 7]);
    assert_eq!(config.nn(), Neighbourhood::Neumann);
    assert_eq!(
        config.config(),
        engine_config::Config { rr: 2, cc: 5, mm: 1, ss: (3, 4), bb: (6, 7), nn: engine::Neighbourhood::Neumann }
    );
}

#[test]
fn config_ranges_widen_to_i32() {
    let config = Config::new(0, 0, 0, &[65535, 0], &[1, 65535], Neighbourhood::Moore);
    assert_eq!(config.ss(), vec![65535, 0]);
    assert_eq!(config.bb(), vec![1, 65535]);
}

#[test]
fn front_board_plays_a_blinker() {
    let config = Config::new(1, 0, 0, &[2, 3], &[3, 3], Neighbourhood::Moore);
    let mut board = Board::new(3, &config, 2);
    assert_eq!(board.cell_count(), 9);
    assert_eq!(board.state_count(), 2);
    for y in 0..3 {
        board.set_cell(1, y, 1);
    }
    assert!(board.is_steppable());
    board.update();
    let cells: Vec<u8> = (0..3).flat_map(|x| (0..3).map(move |y| (x, y))).map(|(x, y)| board.get_cell(x, y)).collect();
    assert_eq!(cells, vec![0, 1, 0, 0, 1, 0, 0, 1, 0]);
    board.reset();
    assert_eq!(board.get_cell(1, 1), 0);
}

#[test]
fn front_board_moves_cells_up_and_down() {
    let config = Config::new(1, 3, 0, &[2, 3], &[3, 3], Neighbourhood::Moore);
    let mut board = Board::new(2, &config, 1);
    board.cell_up(0, 1);
    board.cell_up(0, 1);
    assert_eq!(board.get_cell(0, 1), 2);
    board.cell_up(0, 1);
    assert_eq!(board.get_cell(0, 1), 0);
    board.cell_down(0, 1);
    assert_eq!(board.get_cell(0, 1), 0);
    board.randomize(&vec![2, 1, 0, 2]);
    board.cell_down(1, 1);
    assert_eq!(board.get_cell(1, 1), 1);
    assert!(board.contains_cell(1, 1));
    assert!(!board.contains_cell(2, 0));
}

#[test]
fn front_board_steps_chunk_by_chunk() {
    let config = Config::new(1, 4, 0, &[2, 3], &[3, 3], Neighbourhood::Moore);
    let mut board = Board::new(4, &config, 3);
    board.randomize(&vec![1, 1, 0, 2, 0, 1, 3, 0, 1, 0, 0, 1, 2, 1, 1, 0]);
    let chunks = board.chunks();
    assert_eq!(chunks, vec![0..6, 6..11, 11..16]);
    let mut parts: Vec<u8> = Vec::new();
    for c in chunks.iter().rev() {
        let mut part = board.update_range(c.start, c.end);
        part.append(&mut parts);
        parts = part;
    }
    let mut whole = Board::new(4, &config, 1);
    whole.randomize(&vec![1, 1, 0, 2, 0, 1, 3, 0, 1, 0, 0, 1, 2, 1, 1, 0]);
    whole.update();
    board.set_cells(parts);
    let all = |b: &Board| -> Vec<u8> { (0..16).map(|i| b.get_cell(i / 4, i % 4)).collect() };
    assert_eq!(all(&board), all(&whole));
    assert_eq!(all(&board), vec![1, 1, 0, 3, 0, 2, 0, 1, 1, 0, 0, 1, 3, 1, 1, 0]);
}
