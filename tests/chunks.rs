use pj_euler::chunks::{autocomplete_score, middle_completion_score, parse_chunk, ChunkError};
use pj_euler::sorting::sorted_copy;

const EXAMPLE: [&str; 10] = [
    "[({(<(())[]>[[{[]{<()<>>",
    "[(()[<>])]({[<{<<[]>>(",
    "{([(<{}[<>[]}>{[]{[(<()>",
    "(((({<>}<{<{<>}{[]{[]{}",
    "[[<[([]))<([[{}[[()]]]",
    "[{[{({}]{}}([{[{{{}}([]",
    "{<[[]]>}<{[{[{[]{()[[[]",
    "[<(<(<(<{}))><([]([]()",
    "<{([([[(<>()){}]>(<<{{",
    "<{([{{}}[<[[[<>{}]]]>[]]",
];

#[test]
fn completion_scores() {
    assert_eq!(parse_chunk(EXAMPLE[0].as_bytes()), Ok(288_957));
    assert_eq!(parse_chunk(EXAMPLE[1].as_bytes()), Ok(5566));
    assert_eq!(parse_chunk(EXAMPLE[3].as_bytes()), Ok(1_480_781));
    assert_eq!(parse_chunk(EXAMPLE[6].as_bytes()), Ok(995_444));
    assert_eq!(parse_chunk(EXAMPLE[9].as_bytes()), Ok(294));
}

#[test]
fn corrupted_lines() {
    assert_eq!(
        parse_chunk(EXAMPLE[2].as_bytes()),
        Err(ChunkError::UnexpectedChar { got: b'}', expected: b']' })
    );
    assert_eq!(
        parse_chunk(EXAMPLE[4].as_bytes()),
        Err(ChunkError::UnexpectedChar { got: b')', expected: b']' })
    );
    assert_eq!(parse_chunk("a".as_bytes()), Err(ChunkError::InvalidOpeningDelim(b'a')));
    assert_eq!(parse_chunk("(".repeat(30).as_bytes()), Err(ChunkError::Overflow));
}

#[test]
fn edge_lines() {
    assert_eq!(parse_chunk("".as_bytes()), Ok(0));
    assert_eq!(parse_chunk("()".as_bytes()), Ok(0));
    assert_eq!(parse_chunk(")".as_bytes()), Ok(0));
    assert_eq!(parse_chunk("<".as_bytes()), Ok(4));
    assert_eq!(autocomplete_score(b')'), 1);
    assert_eq!(autocomplete_score(b'>'), 4);
}

#[test]
fn middle_score() {
    let lines: Vec<Vec<u8>> = EXAMPLE.iter().map(|l| l.as_bytes().to_vec()).collect();
    assert_eq!(middle_completion_score(&lines), Some(288_957));
    assert_eq!(middle_completion_score(&[]), None);
    assert_eq!(sorted_copy(&[5, 1, 4, 1]), vec![1, 1, 4, 5]);
}
