use dimacs::lines::next_line;
use dimacs::number::parse_number;
use dimacs::text::{decode, split_words};
use dimacs::{read_graph, Graph, ReadError};
use std::collections::{HashMap, HashSet};
use std::io::BufRead;

/// A small generator of numbers, the same on every run.
struct Dice {
    state: u64,
}

impl Dice {
    fn new(seed: u64) -> Dice {
        Dice { state: seed }
    }

    fn roll(&mut self, sides: usize) -> usize {
        self.state = self
            .state
            .wrapping_mul(6364136223846793005)
            .wrapping_add(1442695040888963407);
        ((self.state >> 33) as usize) % sides
    }

    fn pick<'a, T>(&mut self, from: &'a [T]) -> &'a T {
        &from[self.roll(from.len())]
    }
}

fn code_points_of(s: &str) -> Vec<u32> {
    s.chars().map(|c| c as u32).collect()
}

/// A reader written with the standard library's lines, words and numbers.
fn read_with_std(input: &[u8]) -> Result<Graph, ReadError> {
    let mut graph: Graph = HashMap::new();
    let mut header: Option<(u64, u64)> = None;
    let mut seen: u64 = 0;
    for line in input.lines() {
        let line = match line {
            Ok(line) => line,
            Err(_) => return Err(ReadError::Stream),
        };
        if line.len() <= 1 || line.chars().next() == Some('c') {
            continue;
        }
        let words: Vec<&str> = line.split_whitespace().collect();
        if header.is_none() {
            if words.len() != 4 || words[0] != "p" || words[1] != "edge" {
                return Err(ReadError::Format);
            }
            let nnodes: u64 = words[2].parse().map_err(|_| ReadError::Parse)?;
            let nedges: u64 = words[3].parse().map_err(|_| ReadError::Parse)?;
            header = Some((nnodes, nedges));
        } else {
            if words.len() != 3 || words[0] != "e" {
                return Err(ReadError::Format);
            }
            let n1: u64 = words[1].parse().map_err(|_| ReadError::Parse)?;
            let n2: u64 = words[2].parse().map_err(|_| ReadError::Parse)?;
            graph.entry(n1).or_insert_with(HashSet::new).insert(n2);
            graph.entry(n2).or_insert_with(HashSet::new).insert(n1);
            seen += 1;
        }
    }
    let (nnodes, nedges) = match header {
        Some(header) => header,
        None => return Err(ReadError::Format),
    };
    if !(nedges == seen || 2 * (nedges as u128) == seen as u128) {
        return Err(ReadError::CountMismatch);
    }
    if graph.len() as u64 > nnodes {
        return Err(ReadError::NodeOverflow);
    }
    Ok(graph)
}

#[test]
fn decodes_random_bytes_as_the_standard_library_does() {
    let bytes: [u8; 24] = [
        0x00, 0x20, 0x41, 0x63, 0x7f, 0x80, 0x8f, 0x90, 0x9f, 0xa0, 0xbf, 0xc0, 0xc1, 0xc2, 0xdf,
        0xe0, 0xe1, 0xed, 0xef, 0xf0, 0xf1, 0xf4, 0xf5, 0xff,
    ];
    let mut dice = Dice::new(1);
    let mut accepted = 0;
    for _ in 0..200000 {
        let len = dice.roll(6);
        let mut input = Vec::new();
        for _ in 0..len {
            input.push(*dice.pick(&bytes));
        }
        let expected = match std::str::from_utf8(&input) {
            Ok(s) => Some(code_points_of(s)),
            Err(_) => None,
        };
        if expected.is_some() {
            accepted += 1;
        }
        assert_eq!(decode(&input), expected);
    }
    assert!(accepted > 1000);
}

#[test]
fn decodes_every_scalar_value() {
    let mut buffer = [0u8; 4];
    for cp in 0..0x110000u32 {
        if let Some(c) = char::from_u32(cp) {
            let encoded = c.encode_utf8(&mut buffer);
            assert_eq!(decode(encoded.as_bytes()), Some(vec![cp]));
        }
    }
}

#[test]
fn splits_random_text_as_the_standard_library_does() {
    let alphabet = [
        'a', 'e', 'p', '1', ' ', ' ', '\t', '\r', '\n', '\u{b}', '\u{c}', '\u{85}', '\u{a0}',
        '\u{1680}', '\u{2000}', '\u{200a}', '\u{200b}', '\u{2028}', '\u{2029}', '\u{202f}',
        '\u{205f}', '\u{3000}', '\u{feff}', '\u{1c}', '\u{180e}',
    ];
    let mut dice = Dice::new(2);
    for _ in 0..100000 {
        let len = dice.roll(9);
        let mut text = String::new();
        for _ in 0..len {
            text.push(*dice.pick(&alphabet));
        }
        let expected: Vec<Vec<u32>> = text.split_whitespace().map(code_points_of).collect();
        assert_eq!(split_words(&code_points_of(&text)), expected);
    }
}

#[test]
fn parses_random_words_as_the_standard_library_does() {
    let alphabet = ['0', '0', '1', '2', '5', '9', '9', '+', '-', 'x', ' ', '/', ':'];
    let mut dice = Dice::new(3);
    let mut accepted = 0;
    for _ in 0..200000 {
        let len = dice.roll(5);
        let mut word = String::new();
        for _ in 0..len {
            word.push(*dice.pick(&alphabet));
        }
        let expected: Option<u64> = word.parse().ok();
        if expected.is_some() {
            accepted += 1;
        }
        assert_eq!(parse_number(&code_points_of(&word)), expected);
    }
    assert!(accepted > 1000);
}

#[test]
fn parses_numbers_near_the_limit_as_the_standard_library_does() {
    let mut dice = Dice::new(4);
    for _ in 0..100000 {
        let mut word = String::from("1844674407370955");
        let more = 3 + dice.roll(3);
        for _ in 0..more {
            word.push(*dice.pick(&['0', '1', '5', '6', '9']));
        }
        let expected: Option<u64> = word.parse().ok();
        assert_eq!(parse_number(&code_points_of(&word)), expected);
    }
}

#[test]
fn finds_the_lines_of_random_bytes_as_the_standard_library_does() {
    let alphabet = [b'a', b'c', b' ', b'\r', b'\r', b'\n', b'\n'];
    let mut dice = Dice::new(5);
    for _ in 0..100000 {
        let len = dice.roll(10);
        let mut input = Vec::new();
        for _ in 0..len {
            input.push(*dice.pick(&alphabet));
        }
        let expected: Vec<Vec<u8>> =
            input.as_slice().lines().map(|l| l.unwrap().into_bytes()).collect();
        let mut found: Vec<Vec<u8>> = Vec::new();
        let mut at = 0;
        while let Some((end, next)) = next_line(&input, at) {
            found.push(input[at..end].to_vec());
            at = next;
        }
        assert_eq!(found, expected);
    }
}

#[test]
fn reads_random_inputs_as_a_reader_built_on_the_standard_library() {
    let pieces: [&[u8]; 40] = [
        b"p edge 3 2\n",
        b"p edge 2 1\n",
        b"p edge 4 4\n",
        b"p edge 3 3\n",
        b"p edge 1 0\n",
        b"p edge 3 1\n",
        b"p edge 2 2\r\n",
        b"p edge 3 6\n",
        b"e 1 2\n",
        b"e 2 1\n",
        b"e 2 3\n",
        b"e 1 3\r\n",
        b"e 3 4\n",
        b"e 7 7\n",
        b"e +1 02\n",
        b"e\t1\x0b2\n",
        b"c note\n",
        b"c \xff\n",
        b"\n",
        b"\r\n",
        b"x\n",
        b"x\r",
        b"  \n",
        b"e 1 x\n",
        b"e 1\n",
        b"e 1 2 3\n",
        b"e 1 18446744073709551616\n",
        b"e 18446744073709551615 0\n",
        b"p egde 3 3\n",
        b"p edge x 3\n",
        b"p edge 3\n",
        b"\xff\n",
        b"e 1\xc2\xa02\n",
        b"e 1 2\xe2\x80\x8b\n",
        b"e 1 2",
        b"e",
        b" ",
        b"1",
        b"\r",
        b"c",
    ];
    let mut dice = Dice::new(6);
    let mut accepted = 0;
    let mut stream = 0;
    let mut format = 0;
    let mut parse = 0;
    let mut count = 0;
    let mut nodes = 0;
    for _ in 0..200000 {
        let len = dice.roll(7);
        let mut input = Vec::new();
        for _ in 0..len {
            let piece: &[u8] = pieces[dice.roll(pieces.len())];
            input.extend_from_slice(piece);
        }
        let expected = read_with_std(&input);
        match expected {
            Ok(_) => accepted += 1,
            Err(ReadError::Stream) => stream += 1,
            Err(ReadError::Format) => format += 1,
            Err(ReadError::Parse) => parse += 1,
            Err(ReadError::CountMismatch) => count += 1,
            Err(ReadError::NodeOverflow) => nodes += 1,
        }
        assert_eq!(read_graph(&input), expected);
    }
    assert!(accepted > 100);
    assert!(stream > 100);
    assert!(format > 100);
    assert!(parse > 100);
    assert!(count > 100);
    assert!(nodes > 100);
}
