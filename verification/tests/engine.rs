use game2048::game::{Direction, Engine, LengthError, NoFreeCellError, Status};

fn rows(e: &Engine) -> Vec<Vec<u32>> {
    e.game_data.clone()
}

fn blanks(e: &Engine) -> Vec<usize> {
    let mut list = Vec::new();
    for k in 0..16 {
        if e.game_data[k / 4][k % 4] == 0 {
            list.push(k);
        }
    }
    list
}

fn sorted(mut list: Vec<usize>) -> Vec<usize> {
    list.sort();
    list
}

#[test]
fn go() {
    let mut eng = Engine::from(&vec![2, 0, 0, 1, 2, 1, 4, 8, 4]);
    eng.go_updown(true);
    assert_eq!(
        format!("{:?}", eng.game_data),
        format!(
            "{:?}",
            vec![vec![4, 1, 4, 1], vec![4, 0, 0, 8], vec![0; 4], vec![0; 4]]
        )
    );
    eng.go_updown(false);
    assert_eq!(
        format!("{:?}", eng.game_data),
        format!(
            "{:?}",
            vec![vec![0; 4], vec![0; 4], vec![0, 0, 0, 1], vec![8, 1, 4, 8]]
        )
    );
    let mut eng = Engine::from(&vec![2, 2, 0, 4, 2, 0, 0, 8, 4]);
    eng.go_leftright(true);
    assert_eq!(
        format!("{:?}", eng.game_data),
        format!(
            "{:?}",
            vec![
                vec![4, 4, 0, 0],
                vec![2, 8, 0, 0],
                vec![4, 0, 0, 0],
                vec![0; 4],
            ]
        )
    );
    eng.go_leftright(false);
    assert_eq!(
        format!("{:?}", eng.game_data),
        format!(
            "{:?}",
            vec![
                vec![0, 0, 0, 8],
                vec![0, 0, 2, 8],
                vec![0, 0, 0, 4],
                vec![0; 4],
            ]
        )
    );
}

#[test]
fn up_move_end_to_end() {
    let mut eng = Engine::from(&vec![2, 0, 0, 1, 2, 1, 4, 8, 4]);
    assert_eq!(sorted(eng.free_cells()), vec![1, 2, 9, 10, 11, 12, 13, 14, 15]);
    let changed = eng.go_updown(true);
    assert!(changed);
    assert_eq!(
        rows(&eng),
        vec![vec![4, 1, 4, 1], vec![4, 0, 0, 8], vec![0; 4], vec![0; 4]]
    );
    assert_eq!(
        sorted(eng.free_cells()),
        vec![5, 6, 8, 9, 10, 11, 12, 13, 14, 15]
    );
}

#[test]
fn new_engine_is_empty_with_all_cells_free() {
    let eng = Engine::new();
    assert_eq!(rows(&eng), vec![vec![0u32; 4]; 4]);
    assert_eq!(sorted(eng.free_cells()), (0..16).collect::<Vec<usize>>());
    assert_eq!(eng.score(), 0);
    assert!(!eng.is_failed());
}

#[test]
fn from_fills_up_and_cuts_off() {
    let short = Engine::from(&vec![8, 0, 2]);
    assert_eq!(
        rows(&short),
        vec![vec![8, 0, 2, 0], vec![0; 4], vec![0; 4], vec![0; 4]]
    );
    assert_eq!(sorted(short.free_cells()), blanks(&short));
    assert_eq!(short.free_cells().len(), 14);
    let long: Vec<u32> = (1..=20).collect();
    let cut = Engine::from(&long);
    assert_eq!(
        rows(&cut),
        vec![
            vec![1, 2, 3, 4],
            vec![5, 6, 7, 8],
            vec![9, 10, 11, 12],
            vec![13, 14, 15, 16]
        ]
    );
    assert!(cut.free_cells().is_empty());
    let none = Engine::from(&Vec::new());
    assert_eq!(rows(&none), vec![vec![0u32; 4]; 4]);
}

#[test]
fn from_exact_wants_sixteen_values() {
    assert_eq!(
        Engine::from_exact(&vec![2, 4, 8]).err(),
        Some(LengthError { len: 3 })
    );
    assert_eq!(
        Engine::from_exact(&vec![0; 17]).err(),
        Some(LengthError { len: 17 })
    );
    let mut values = vec![0u32; 16];
    values[5] = 2;
    values[15] = 4;
    let eng = Engine::from_exact(&values).unwrap();
    assert_eq!(eng.cell(1, 1), 2);
    assert_eq!(eng.cell(3, 3), 4);
    assert_eq!(eng.cell(0, 0), 0);
    assert_eq!(eng.free_cells().len(), 14);
}

#[test]
fn three_equal_tiles_merge_once() {
    let mut eng = Engine::from(&vec![2, 2, 2, 0]);
    assert!(eng.go_leftright(true));
    assert_eq!(rows(&eng)[0], vec![4, 2, 0, 0]);
    let mut eng = Engine::from(&vec![2, 2, 2, 0]);
    assert!(eng.go_leftright(false));
    assert_eq!(rows(&eng)[0], vec![0, 0, 2, 4]);
    let mut eng = Engine::from(&vec![2, 2, 2, 2]);
    assert!(eng.go_leftright(true));
    assert_eq!(rows(&eng)[0], vec![4, 4, 0, 0]);
    let mut eng = Engine::from(&vec![4, 2, 2, 0]);
    assert!(eng.go_leftright(true));
    assert_eq!(rows(&eng)[0], vec![4, 4, 0, 0]);
}

#[test]
fn tiles_merge_across_empty_cells() {
    let mut eng = Engine::from(&vec![2, 0, 2, 0]);
    assert!(eng.go_leftright(true));
    assert_eq!(rows(&eng)[0], vec![4, 0, 0, 0]);
    let mut eng = Engine::from(&vec![2, 0, 0, 0, 0, 0, 0, 0, 0, 0, 0, 0, 2]);
    assert!(eng.go_updown(false));
    assert_eq!(
        rows(&eng),
        vec![vec![0; 4], vec![0; 4], vec![0; 4], vec![4, 0, 0, 0]]
    );
}

#[test]
fn move_without_effect_reports_no_change() {
    let mut eng = Engine::from(&vec![2, 4, 0, 0, 8]);
    let before_free = sorted(eng.free_cells());
    assert!(!eng.go_leftright(true));
    assert!(!eng.go_updown(true));
    assert_eq!(
        rows(&eng),
        vec![vec![2, 4, 0, 0], vec![8, 0, 0, 0], vec![0; 4], vec![0; 4]]
    );
    assert_eq!(sorted(eng.free_cells()), before_free);
}

#[test]
fn score_is_the_sum_of_the_cells() {
    let eng = Engine::from(&vec![2, 0, 0, 1, 2, 1, 4, 8, 4]);
    assert_eq!(eng.score(), 22);
    assert_eq!(eng.checked_score(), Some(22));
    let big = Engine::from(&vec![u32::MAX, 1]);
    assert_eq!(big.checked_score(), None);
    let edge = Engine::from(&vec![u32::MAX - 1, 1]);
    assert_eq!(edge.checked_score(), Some(u32::MAX));
    assert_eq!(edge.score(), u32::MAX);
}

#[test]
fn score_stays_through_a_move() {
    let mut eng = Engine::from(&vec![2, 2, 4, 4, 8, 0, 8, 0, 2, 2, 2, 0, 16, 16, 16, 16]);
    let before = eng.score();
    assert_eq!(before, 98);
    assert!(eng.go_leftright(true));
    assert_eq!(
        rows(&eng),
        vec![
            vec![4, 8, 0, 0],
            vec![16, 0, 0, 0],
            vec![4, 2, 0, 0],
            vec![32, 32, 0, 0]
        ]
    );
    assert_eq!(eng.score(), before);
    assert!(eng.go_updown(false));
    assert_eq!(eng.score(), before);
}

#[test]
fn free_cells_are_the_empty_cells_after_moves() {
    let start = vec![2, 2, 0, 4, 2, 0, 0, 8, 4, 4, 4, 0, 0, 0, 0, 2];
    for first in [true, false] {
        for second in [true, false] {
            let mut eng = Engine::from(&start);
            assert_eq!(sorted(eng.free_cells()), blanks(&eng));
            eng.go_updown(first);
            assert_eq!(sorted(eng.free_cells()), blanks(&eng));
            eng.go_leftright(second);
            assert_eq!(sorted(eng.free_cells()), blanks(&eng));
        }
    }
}

#[test]
fn place_puts_the_tile_in_the_chosen_free_cell() {
    let mut eng = Engine::from(&vec![2, 0, 4, 0, 0, 8]);
    let free = eng.free_cells();
    assert_eq!(free[..3], [1, 3, 4]);
    eng.place(1, 0);
    assert_eq!(eng.cell(0, 3), 2);
    assert_eq!(eng.free_cells()[..2], [1, 4]);
    assert_eq!(eng.free_cells().len(), free.len() - 1);
    eng.place(0, 7);
    assert_eq!(eng.cell(0, 1), 2);
    eng.place(0, 8);
    assert_eq!(eng.cell(1, 0), 4);
    eng.place(0, 9);
    assert_eq!(eng.cell(1, 2), 4);
    assert_eq!(sorted(eng.free_cells()), blanks(&eng));
    assert_eq!(eng.score(), 2 + 4 + 8 + 2 + 2 + 4 + 4);
}

#[test]
fn spawn_adds_one_tile_in_a_free_cell() {
    for _ in 0..200 {
        let mut eng = Engine::from(&vec![2, 0, 4, 0, 0, 8]);
        let before = rows(&eng);
        let free = blanks(&eng);
        assert_eq!(eng.rand_insert(), Ok(()));
        let after = rows(&eng);
        let changed: Vec<usize> = (0..16)
            .filter(|k| before[k / 4][k % 4] != after[k / 4][k % 4])
            .collect();
        assert_eq!(changed.len(), 1);
        let k = changed[0];
        assert!(free.contains(&k));
        assert!(after[k / 4][k % 4] == 2 || after[k / 4][k % 4] == 4);
        assert_eq!(sorted(eng.free_cells()), blanks(&eng));
        assert_eq!(eng.free_cells().len(), free.len() - 1);
    }
}

#[test]
fn spawn_reaches_every_free_cell_and_both_tiles() {
    let mut cells_seen = [false; 16];
    let mut twos = 0;
    let mut fours = 0;
    for _ in 0..2000 {
        let mut eng = Engine::from(&vec![2, 0, 4, 0]);
        eng.rand_insert().unwrap();
        for k in 0..16 {
            let v = eng.game_data[k / 4][k % 4];
            if k != 0 && k != 2 && v != 0 {
                cells_seen[k] = true;
                if v == 2 {
                    twos += 1;
                } else {
                    fours += 1;
                }
            }
        }
    }
    assert_eq!(twos + fours, 2000);
    assert!(twos > fours);
    assert!(fours > 0);
    for k in 0..16 {
        assert_eq!(cells_seen[k], k != 0 && k != 2);
    }
}

#[test]
fn spawn_on_a_full_board_fails_and_changes_nothing() {
    let full: Vec<u32> = (1..=16).collect();
    let mut eng = Engine::from(&full);
    assert_eq!(eng.rand_insert(), Err(NoFreeCellError));
    assert_eq!(Engine::from(&full).game_data, eng.game_data);
    assert!(eng.free_cells().is_empty());
}

#[test]
fn init_spawns_two_tiles() {
    for _ in 0..100 {
        let eng = Engine::init();
        let tiles: Vec<u32> = eng
            .game_data
            .iter()
            .flatten()
            .copied()
            .filter(|v| *v != 0)
            .collect();
        assert_eq!(tiles.len(), 2);
        assert!(tiles.iter().all(|v| *v == 2 || *v == 4));
        assert_eq!(eng.free_cells().len(), 14);
        assert_eq!(sorted(eng.free_cells()), blanks(&eng));
        assert_eq!(eng.game_data.len(), 4);
        assert!(eng.game_data.iter().all(|row| row.len() == 4));
    }
}

#[test]
fn turn_spawns_only_after_a_change() {
    for _ in 0..50 {
        let mut eng = Engine::from(&vec![2, 4, 0, 0, 8]);
        assert_eq!(eng.go(Direction::Left), Status::Done);
        assert_eq!(
            rows(&eng),
            vec![vec![2, 4, 0, 0], vec![8, 0, 0, 0], vec![0; 4], vec![0; 4]]
        );
        assert_eq!(eng.go(Direction::Up), Status::Done);
        assert_eq!(eng.free_cells().len(), 13);
        assert_eq!(eng.go(Direction::Right), Status::Done);
        let tiles = eng.game_data.iter().flatten().filter(|v| **v != 0).count();
        assert_eq!(tiles, 4);
        assert_eq!(rows(&eng)[0][3], 4);
        assert_eq!(rows(&eng)[0][2], 2);
        assert_eq!(rows(&eng)[1][3], 8);
        assert_eq!(sorted(eng.free_cells()), blanks(&eng));
    }
}

#[test]
fn turn_on_a_full_board_that_can_merge() {
    let mut eng = Engine::from(&vec![2, 2, 4, 8, 16, 32, 64, 128, 2, 4, 8, 16, 32, 64, 128, 256]);
    assert!(!eng.is_failed());
    assert_eq!(eng.go(Direction::Left), Status::Done);
    assert_eq!(rows(&eng)[0][..3], [4, 4, 8]);
    assert!(rows(&eng)[0][3] == 2 || rows(&eng)[0][3] == 4);
    assert!(eng.free_cells().is_empty());
}

#[test]
fn terminal_check() {
    let packed = vec![2, 4, 2, 4, 4, 2, 4, 2, 2, 4, 2, 4, 4, 2, 4, 2];
    assert!(Engine::from(&packed).is_failed());
    let mut with_blank = packed.clone();
    with_blank[10] = 0;
    assert!(!Engine::from(&with_blank).is_failed());
    let mut row_pair = packed.clone();
    row_pair[14] = 2;
    row_pair[15] = 2;
    row_pair[10] = 8;
    row_pair[11] = 16;
    assert!(!Engine::from(&row_pair).is_failed());
    let mut column_pair = packed.clone();
    column_pair[3] = 8;
    column_pair[7] = 8;
    assert!(!Engine::from(&column_pair).is_failed());
    let wrap = vec![2, 4, 8, 16, 16, 32, 64, 128, 128, 256, 512, 1024, 1024, 2048, 4096, 8192];
    assert!(Engine::from(&wrap).is_failed());
    assert!(!Engine::new().is_failed());
}

#[test]
fn stuck_board_does_not_move() {
    let packed = vec![2, 4, 2, 4, 4, 2, 4, 2, 2, 4, 2, 4, 4, 2, 4, 2];
    for d in [Direction::Up, Direction::Down, Direction::Left, Direction::Right] {
        let mut eng = Engine::from(&packed);
        assert_eq!(eng.go(d), Status::Done);
        assert_eq!(eng.game_data, Engine::from(&packed).game_data);
    }
}

#[test]
fn move_fits_tells_when_a_merge_is_too_large() {
    let half = 1u32 << 31;
    let eng = Engine::from(&vec![half, half, 0, 0, half]);
    assert!(!eng.move_fits(Direction::Left));
    assert!(!eng.move_fits(Direction::Right));
    assert!(!eng.move_fits(Direction::Up));
    assert!(!eng.move_fits(Direction::Down));
    let eng = Engine::from(&vec![half, 2, half, 0, 4]);
    assert!(eng.move_fits(Direction::Left));
    assert!(eng.move_fits(Direction::Up));
    let mut eng = Engine::from(&vec![half - 1, half - 1]);
    assert!(eng.move_fits(Direction::Left));
    assert!(eng.go_leftright(true));
    assert_eq!(eng.cell(0, 0), u32::MAX - 1);
}

#[test]
fn up_then_down_keeps_the_tiles_when_nothing_merges() {
    let start = vec![2, 0, 4, 0, 0, 8, 0, 16, 32, 0, 2, 0, 0, 64, 0, 4];
    let mut eng = Engine::from(&start);
    eng.go_updown(true);
    eng.go_updown(false);
    let mut before: Vec<u32> = start.clone();
    let mut after: Vec<u32> = eng.game_data.iter().flatten().copied().collect();
    before.sort();
    after.sort();
    assert_eq!(before, after);
    assert_eq!(
        rows(&eng),
        vec![
            vec![0; 4],
            vec![0; 4],
            vec![2, 8, 4, 16],
            vec![32, 64, 2, 4]
        ]
    );
    let mut eng = Engine::from(&start);
    eng.go_leftright(true);
    eng.go_leftright(false);
    let mut after: Vec<u32> = eng.game_data.iter().flatten().copied().collect();
    after.sort();
    assert_eq!(before, after);
    assert_eq!(
        rows(&eng),
        vec![
            vec![0, 0, 2, 4],
            vec![0, 0, 8, 16],
            vec![0, 0, 32, 2],
            vec![0, 0, 64, 4]
        ]
    );
}

#[test]
fn no_empty_cell_between_tiles_after_a_move() {
    let start = vec![0, 2, 0, 2, 4, 0, 0, 8, 0, 0, 16, 0, 2, 4, 0, 8];
    for d in [Direction::Up, Direction::Down, Direction::Left, Direction::Right] {
        let mut eng = Engine::from(&start);
        let vertical = matches!(d, Direction::Up | Direction::Down);
        let toward_zero = matches!(d, Direction::Up | Direction::Left);
        if vertical {
            eng.go_updown(toward_zero);
        } else {
            eng.go_leftright(toward_zero);
        }
        for n in 0..4 {
            let mut seen_blank = false;
            for p in 0..4 {
                let q = if toward_zero { p } else { 3 - p };
                let v = if vertical {
                    eng.game_data[q][n]
                } else {
                    eng.game_data[n][q]
                };
                if v == 0 {
                    seen_blank = true;
                } else {
                    assert!(!seen_blank);
                }
            }
        }
    }
}

#[test]
fn intact_engine_is_told_from_a_tampered_one() {
    let mut eng = Engine::from(&vec![2, 0, 4]);
    assert!(eng.is_intact());
    eng.go_leftright(false);
    assert!(eng.is_intact());
    eng.rand_insert().unwrap();
    assert!(eng.is_intact());
    assert!(Engine::new().is_intact());
    assert!(Engine::init().is_intact());
    let mut eng = Engine::from(&vec![2, 0, 4]);
    eng.game_data[0][1] = 8;
    assert!(!eng.is_intact());
    let mut eng = Engine::from(&vec![2, 0, 4]);
    eng.game_data[0][0] = 0;
    assert!(!eng.is_intact());
    let mut eng = Engine::from(&vec![2, 0, 4]);
    eng.game_data[0][0] = 16;
    assert!(eng.is_intact());
    let mut eng = Engine::from(&vec![2, 0, 4]);
    eng.game_data[3].push(0);
    assert!(!eng.is_intact());
    let mut eng = Engine::from(&vec![2, 0, 4]);
    eng.game_data.pop();
    assert!(!eng.is_intact());
}
