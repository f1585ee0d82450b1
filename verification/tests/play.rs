use game2048::game::{Direction, Engine, Status};

fn cells(e: &Engine) -> Vec<u32> {
    e.game_data.iter().flatten().copied().collect()
}

fn blank_indices(e: &Engine) -> Vec<usize> {
    cells(e)
        .iter()
        .enumerate()
        .filter(|(_, v)| **v == 0)
        .map(|(k, _)| k)
        .collect()
}

fn direction(n: u64) -> Direction {
    match n % 4 {
        0 => Direction::Up,
        1 => Direction::Down,
        2 => Direction::Left,
        _ => Direction::Right,
    }
}

fn next(seed: &mut u64) -> u64 {
    *seed = seed
        .wrapping_mul(6364136223846793005)
        .wrapping_add(1442695040888963407);
    *seed >> 33
}

#[test]
fn long_game_keeps_its_invariants() {
    let mut seed = 2048u64;
    for _ in 0..20 {
        let mut eng = Engine::init();
        for _ in 0..400 {
            if eng.is_failed() {
                break;
            }
            let d = direction(next(&mut seed));
            let before = cells(&eng);
            let score = eng.score();
            assert!(eng.move_fits(d));
            assert_eq!(eng.go(d), Status::Done);
            let after = cells(&eng);
            assert_eq!(eng.free_cells(), blank_indices(&eng));
            assert!(eng.is_intact());
            for v in &after {
                assert!(*v == 0 || (*v >= 2 && v.is_power_of_two()));
            }
            let gain = eng.score() - score;
            if gain == 0 {
                assert_eq!(before, after);
            } else {
                assert!(gain == 2 || gain == 4);
                assert_ne!(before, after);
            }
        }
    }
}

#[test]
fn game_over_board_has_no_move_left() {
    let mut seed = 7u64;
    let mut over = 0;
    for _ in 0..30 {
        let mut eng = Engine::init();
        for _ in 0..5000 {
            let failed = eng.is_failed();
            let mut moves = 0;
            for n in 0..4 {
                let mut probe = Engine::from(&cells(&eng));
                let changed = match direction(n) {
                    Direction::Up => probe.go_updown(true),
                    Direction::Down => probe.go_updown(false),
                    Direction::Left => probe.go_leftright(true),
                    Direction::Right => probe.go_leftright(false),
                };
                if changed {
                    moves += 1;
                }
            }
            assert_eq!(failed, moves == 0);
            if failed {
                over += 1;
                break;
            }
            eng.go(direction(next(&mut seed)));
        }
    }
    assert!(over > 0);
}

#[test]
fn board_whose_sum_fits_can_move_every_way() {
    let half = 1u32 << 31;
    let boards = vec![
        vec![half - 1, half - 1, 1, 0],
        vec![half - 2, 0, 0, half - 2, 1, 1, 1],
        vec![1 << 30, 1 << 30, 1 << 30, 1 << 29],
    ];
    for values in boards {
        let eng = Engine::from(&values);
        assert!(eng.checked_score().is_some());
        for n in 0..4 {
            assert!(eng.move_fits(direction(n)));
        }
    }
}
