use pj_euler::segments::{parse_signal, solve_line, sum_readings, wire_count, wire_of};

fn signals(words: &str) -> Vec<u8> {
    words
        .trim()
        .split(' ')
        .map(|w| parse_signal(w.as_bytes()).unwrap())
        .collect()
}

fn display(line: &str) -> (Vec<u8>, Vec<u8>) {
    let (ins, outs) = line.split_once('|').unwrap();
    (signals(ins), signals(outs))
}

const EXAMPLE: [&str; 3] = [
    "acedgfb cdfbe gcdfa fbcad dab cefabd cdfgeb eafb cagedb ab | cdfeb fcadb cdfeb cdbaf",
    "be cfbegad cbdgef fgaecd cgeb fdcge agebfd fecdb fabcd edb | fdgacbe cefdb cefbgd gcbe",
    "edbfga begcd cbg gc gcadebf fbgde acbgfd abcde gfcbed gfec | fcgedb cgb dgebacf gc",
];

#[test]
fn wires_and_signals() {
    assert_eq!(wire_of(b'a'), Some(0));
    assert_eq!(wire_of(b'g'), Some(6));
    assert_eq!(wire_of(b'h'), None);
    assert_eq!(parse_signal("ab".as_bytes()), Some(0b11));
    assert_eq!(parse_signal("gc".as_bytes()), Some(0b100_0100));
    assert_eq!(parse_signal("ax".as_bytes()), None);
    assert_eq!(wire_count(0b111_1111), 7);
    assert_eq!(wire_count(0), 0);
}

#[test]
fn solve_line_reads_outputs() {
    let (ins, outs) = display(EXAMPLE[0]);
    assert_eq!(solve_line(&ins, &outs), Some(5353));
    let (ins, outs) = display(EXAMPLE[1]);
    assert_eq!(solve_line(&ins, &outs), Some(8394));
    let (ins, outs) = display(EXAMPLE[2]);
    assert_eq!(solve_line(&ins, &outs), Some(9781));
}

#[test]
fn solve_line_fails() {
    let (ins, _) = display(EXAMPLE[0]);
    assert_eq!(solve_line(&ins[..9], &[]), None);
    assert_eq!(solve_line(&ins, &[0b1]), None);
    assert_eq!(solve_line(&ins, &[]), Some(0));
}

#[test]
fn readings_add_up() {
    let displays: Vec<(Vec<u8>, Vec<u8>)> = EXAMPLE.iter().map(|l| display(l)).collect();
    assert_eq!(sum_readings(&displays), Some(5353 + 8394 + 9781));
    assert_eq!(sum_readings(&[]), Some(0));
}
