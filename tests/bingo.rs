use pj_euler::bingo::{last_winner_score, Board};

const NUMBERS: [u32; 27] = [
    7, 4, 9, 5, 11, 17, 23, 2, 0, 14, 21, 24, 10, 16, 13, 6, 15, 25, 12, 22, 18, 20, 8, 19, 3, 26,
    1,
];

const BOARDS: [[u32; 25]; 3] = [
    [
        22, 13, 17, 11, 0, 8, 2, 23, 4, 24, 21, 9, 14, 16, 7, 6, 10, 3, 18, 5, 1, 12, 20, 15, 19,
    ],
    [
        3, 15, 0, 2, 22, 9, 18, 13, 17, 5, 19, 8, 7, 25, 23, 20, 11, 10, 24, 4, 14, 21, 16, 12, 6,
    ],
    [
        14, 21, 17, 24, 4, 10, 16, 15, 9, 19, 18, 8, 23, 26, 20, 22, 11, 13, 6, 5, 2, 0, 12, 3, 7,
    ],
];

fn boards() -> Vec<Board> {
    BOARDS.iter().map(|b| Board::from_numbers(b).unwrap()).collect()
}

#[test]
fn first_board_to_win() {
    let b = boards();
    let called = &NUMBERS[..12];
    assert_eq!(b[0].bingod(called), None);
    assert_eq!(b[1].bingod(called), None);
    assert_eq!(b[2].bingod(called), Some(4512));
    assert_eq!(b[2].sum_unmarked(called), 188);
    assert_eq!(b[2].score(called), 4512);
    assert_eq!(b[2].bingod(&NUMBERS[..11]), None);
}

#[test]
fn last_board_to_win() {
    assert_eq!(last_winner_score(boards(), &NUMBERS), Some(1924));
    assert_eq!(last_winner_score(boards(), &NUMBERS[..5]), None);
    assert_eq!(last_winner_score(Vec::new(), &NUMBERS), None);
}

#[test]
fn columns_win_too() {
    let b = Board::from_numbers(&BOARDS[0]).unwrap();
    assert_eq!(b.bingod(&[22, 8, 21, 6, 1]), Some((300 - 58) as u128 * 1));
    assert!(Board::from_numbers(&BOARDS[0][..24]).is_none());
}
