use saper::board::{Action, Board, Tile};

fn blank_board(width: usize, height: usize, mine_count: usize) -> Board {
    Board::new(width, height, mine_count)
}

/// A 3x3 board with one mine in the corner (index 0), tile 4 revealed
/// with count 1, counters consistent.
fn corner_mine_board() -> Board {
    let mut b = blank_board(3, 3, 1);
    b.tiles[0].mine = true;
    for i in [1usize, 3, 4] {
        b.tiles[i].count = 1;
    }
    b.tiles[4].digged = true;
    b.tiles_left = 8;
    b.generated = true;
    b
}

fn count_mines(b: &Board) -> usize {
    b.tiles.iter().filter(|t| t.mine).count()
}

fn neighbour_mines(b: &Board, index: usize) -> usize {
    b.neighbours(index).into_iter().filter(|&n| b.tiles[n].mine).count()
}

#[test]
fn new_board_is_fresh() {
    let b = blank_board(4, 5, 6);
    assert_eq!(b.width, 4);
    assert_eq!(b.height, 5);
    assert_eq!(b.mine_count, 6);
    assert_eq!(b.flags, 0);
    assert_eq!(b.tiles_left, 20);
    assert!(!b.generated);
    assert!(b.alive);
    assert_eq!(b.tiles.len(), 20);
    assert!(b.to_dig.is_empty());
    for t in &b.tiles {
        assert_eq!(t.count, 0);
        assert!(!t.mine && !t.flagged && !t.digged);
    }
}

#[test]
fn tile_new_is_blank() {
    let t = Tile::new();
    assert_eq!(t.count, 0);
    assert!(!t.mine && !t.flagged && !t.digged);
}

#[test]
fn neighbours_middle_edge_corner() {
    let b = blank_board(3, 3, 0);
    assert_eq!(b.neighbours(4), vec![0, 1, 2, 3, 5, 6, 7, 8]);
    assert_eq!(b.neighbours(0), vec![1, 3, 4]);
    assert_eq!(b.neighbours(1), vec![0, 2, 3, 4, 5]);
    assert_eq!(b.neighbours(8), vec![4, 5, 7]);
    let wide = blank_board(5, 1, 0);
    assert_eq!(wide.neighbours(2), vec![1, 3]);
}

#[test]
fn generate_rejects_too_many_mines() {
    let mut one = blank_board(1, 1, 1);
    let r = one.generate(0);
    assert_eq!(r, Err("Not enouth tiles on the board".to_string()));
    assert!(!one.generated);

    let mut nine = blank_board(3, 3, 9);
    assert!(nine.generate(4).is_err());
    assert!(!nine.generated);

    let mut eight = blank_board(3, 3, 8);
    assert!(eight.generate(4).is_ok());
    assert!(eight.generated);
}

#[test]
fn generate_places_exact_mines_and_counts() {
    let mut b = blank_board(5, 5, 10);
    b.generate(12).unwrap();
    assert!(b.generated);
    assert!(!b.tiles[12].mine);
    assert_eq!(count_mines(&b), 10);
    for i in 0..25 {
        assert_eq!(b.tiles[i].count as usize, neighbour_mines(&b, i));
        assert!(!b.tiles[i].digged);
        assert!(!b.tiles[i].flagged);
    }
    assert_eq!(b.to_dig, vec![12]);
    assert!(b.alive);
}

#[test]
fn generate_with_all_but_safe_mined() {
    let mut b = blank_board(3, 3, 8);
    b.generate(4).unwrap();
    assert!(!b.tiles[4].mine);
    assert_eq!(count_mines(&b), 8);
    assert_eq!(b.tiles[4].count, 8);
}

#[test]
fn flag_toggle_restores_flags() {
    let mut b = blank_board(3, 3, 0);
    let before = b.flags;
    b.action(4, Action::Flag);
    assert!(b.tiles[4].flagged);
    assert_eq!(b.flags, before + 1);
    b.action(4, Action::Flag);
    assert!(!b.tiles[4].flagged);
    assert_eq!(b.flags, before);
}

#[test]
fn flag_on_dug_tile_is_noop() {
    let mut b = corner_mine_board();
    b.action(4, Action::Flag);
    assert!(!b.tiles[4].flagged);
    assert_eq!(b.flags, 0);
}

#[test]
fn dig_on_flagged_tile_is_noop() {
    let mut b = blank_board(3, 3, 0);
    b.action(4, Action::Flag);
    b.action(4, Action::Dig);
    assert!(b.to_dig.is_empty());
    b.tick();
    assert!(!b.tiles[4].digged);
}

#[test]
fn dig_enqueues_once() {
    let mut b = corner_mine_board();
    b.action(1, Action::Dig);
    b.action(1, Action::Dig);
    assert_eq!(b.to_dig, vec![1]);
}

#[test]
fn dig_on_dug_blank_is_noop() {
    let mut b = blank_board(3, 3, 0);
    b.tiles[4].digged = true;
    b.tiles_left = 8;
    b.action(4, Action::Dig);
    assert!(b.to_dig.is_empty());
}

#[test]
fn chord_enqueues_only_on_matching_flags() {
    let mut b = corner_mine_board();
    // No flags: count 1 does not match 0 flagged neighbours.
    b.action(4, Action::Dig);
    assert!(b.to_dig.is_empty());
    // Wrong flag: two flagged neighbours do not match count 1.
    b.action(0, Action::Flag);
    b.action(1, Action::Flag);
    b.action(4, Action::Dig);
    assert!(b.to_dig.is_empty());
    b.action(1, Action::Flag);
    // Right flag count: every neighbour is enqueued.
    b.action(4, Action::Dig);
    assert_eq!(b.to_dig, vec![0, 1, 2, 3, 5, 6, 7, 8]);
}

#[test]
fn tick_reveals_and_counts_down() {
    let mut b = corner_mine_board();
    b.action(8, Action::Dig);
    assert_eq!(b.to_dig, vec![8]);
    let left = b.tiles_left;
    b.tick();
    assert!(b.tiles[8].digged);
    assert_eq!(b.tiles_left, left - 1);
    // Tile 8 is blank, so its hidden neighbours are queued for the
    // next wave; the revealed neighbour 4 is not.
    assert_eq!(b.to_dig, vec![5, 7]);
    let dug = b.tiles.iter().filter(|t| t.digged).count();
    assert_eq!(b.tiles_left, b.width * b.height - dug);
}

#[test]
fn revealing_mine_kills_for_good() {
    let mut b = corner_mine_board();
    b.action(0, Action::Dig);
    b.tick();
    assert!(b.tiles[0].digged);
    assert!(!b.alive);
    // No later action or tick revives the board.
    b.action(2, Action::Flag);
    b.action(5, Action::Dig);
    b.tick();
    b.tick();
    assert!(!b.alive);
}

#[test]
fn flood_reveals_whole_blank_board() {
    let mut b = blank_board(5, 5, 0);
    b.generate(12).unwrap();
    for _ in 0..6 {
        b.tick();
    }
    for t in &b.tiles {
        assert!(t.digged);
    }
    assert_eq!(b.tiles_left, 0);
    assert!(b.alive);
    assert!(b.to_dig.is_empty());
}

#[test]
fn flood_stops_at_nonzero_ring() {
    // 5x5, one mine in the corner: the blank region is everything
    // outside the mine's neighbourhood; the ring with count 1 is
    // revealed, the mine itself is not.
    let mut b = blank_board(5, 5, 1);
    b.tiles[0].mine = true;
    for i in [1usize, 5, 6] {
        b.tiles[i].count = 1;
    }
    b.generated = true;
    b.action(24, Action::Dig);
    for _ in 0..10 {
        b.tick();
    }
    assert!(!b.tiles[0].digged);
    for i in 1..25 {
        assert!(b.tiles[i].digged, "tile {} should be revealed", i);
    }
    assert!(b.alive);
    assert_eq!(b.tiles_left, 1);
}

#[test]
fn empty_tick_is_noop() {
    let mut b = corner_mine_board();
    b.action(3, Action::Flag);
    let tiles_before: Vec<(u8, bool, bool, bool)> =
        b.tiles.iter().map(|t| (t.count, t.mine, t.flagged, t.digged)).collect();
    let (flags, left, alive, generated) = (b.flags, b.tiles_left, b.alive, b.generated);
    b.tick();
    let tiles_after: Vec<(u8, bool, bool, bool)> =
        b.tiles.iter().map(|t| (t.count, t.mine, t.flagged, t.digged)).collect();
    assert_eq!(tiles_before, tiles_after);
    assert_eq!(b.flags, flags);
    assert_eq!(b.tiles_left, left);
    assert_eq!(b.alive, alive);
    assert_eq!(b.generated, generated);
    assert!(b.to_dig.is_empty());
}

#[test]
fn flagged_tile_in_wave_is_skipped() {
    let mut b = corner_mine_board();
    b.action(1, Action::Dig);
    b.action(1, Action::Flag);
    b.tick();
    assert!(!b.tiles[1].digged);
    assert!(b.tiles[1].flagged);
    assert_eq!(b.tiles_left, 8);
}
