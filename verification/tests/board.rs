use std::collections::BTreeMap;
use std::collections::BTreeSet;
use wordsearch::{Board, BoardError, Dict, Graph, Path};

fn chars_of(list: Vec<(usize, char)>) -> BTreeMap<usize, char> {
    list.into_iter().collect()
}

fn rows_of(rows: &[&str]) -> Vec<Vec<char>> {
    rows.iter().map(|row| row.chars().collect()).collect()
}

fn words_of(board: &Board, paths: &[Path]) -> Vec<String> {
    let mut words: Vec<String> = paths.iter().map(|path| board.path_to_word(path)).collect();
    words.sort();
    words
}

#[test]
fn from_str_ok() {
    let board = "abc def ghi".parse::<Board>();

    let expected = Board::from_parts(
        Graph::grid(3, 3),
        chars_of(vec![
            (0, 'a'),
            (1, 'b'),
            (2, 'c'),
            (3, 'd'),
            (4, 'e'),
            (5, 'f'),
            (6, 'g'),
            (7, 'h'),
            (8, 'i'),
        ]),
    )
    .unwrap();

    assert_eq!(board, Ok(expected));
}

#[test]
fn from_str_err() {
    assert!("a b c".parse::<Board>().is_err());
    assert!("abc".parse::<Board>().is_err());
    assert!("abc de fghi".parse::<Board>().is_err());
}

#[test]
fn search() {
    let dict = Dict::from_words(&[
        "an", "and", "ant", "anti", "bad", "banana", "bat", "bot", "boy",
    ]);

    let board = Board::from_parts(
        Graph::grid(2, 2),
        chars_of(vec![(0, 'b'), (1, 'a'), (2, 't'), (3, 'n')]),
    )
    .unwrap();

    let mut paths = board.search(&dict);
    paths.sort();

    let expected = vec![vec![0, 1, 2], vec![1, 3], vec![1, 3, 2]];

    assert_eq!(paths, expected);
}

#[test]
fn parse_names_each_fault() {
    assert_eq!("a b c".parse::<Board>(), Err(BoardError::TooNarrow));
    assert_eq!("abc".parse::<Board>(), Err(BoardError::TooFewRows));
    assert_eq!("abc de fghi".parse::<Board>(), Err(BoardError::UnevenRows));
    assert_eq!("".parse::<Board>(), Err(BoardError::TooFewRows));
    assert_eq!("   \n\t ".parse::<Board>(), Err(BoardError::TooFewRows));
}

#[test]
fn uneven_rows_come_before_narrow_rows() {
    assert_eq!("a bc".parse::<Board>(), Err(BoardError::UnevenRows));
    assert_eq!("ab c".parse::<Board>(), Err(BoardError::UnevenRows));
    assert_eq!("a b".parse::<Board>(), Err(BoardError::TooNarrow));
}

#[test]
fn messages_describe_the_fault() {
    assert_eq!(BoardError::TooFewRows.message(), "must have at least two rows");
    assert_eq!(BoardError::UnevenRows.message(), "all rows must be the same width");
    assert_eq!(BoardError::TooNarrow.message(), "must have at least two columns");
}

#[test]
fn rows_stand_between_any_white_space() {
    let plain = "ab cd".parse::<Board>().unwrap();
    assert_eq!("  ab\n\tcd \r\n".parse::<Board>(), Ok(plain));
    let plain = "ab cd".parse::<Board>().unwrap();
    assert_eq!("ab\u{a0}cd".parse::<Board>(), Ok(plain));
    let plain = "ab cd".parse::<Board>().unwrap();
    assert_eq!("ab\u{3000}\u{2003}cd".parse::<Board>(), Ok(plain));
}

#[test]
fn a_row_is_measured_in_characters() {
    let board = "äb çd".parse::<Board>().unwrap();
    let expected = Board::from_parts(
        Graph::grid(2, 2),
        chars_of(vec![(0, 'ä'), (1, 'b'), (2, 'ç'), (3, 'd')]),
    )
    .unwrap();
    assert_eq!(board, expected);
    assert_eq!("ä b".parse::<Board>(), Err(BoardError::TooNarrow));
}

#[test]
fn from_rows_builds_the_board_of_the_text() {
    let board = Board::from_rows(&rows_of(&["abc", "def", "ghi"]));
    assert_eq!(board, "abc def ghi".parse::<Board>());
    assert_eq!(Board::from_rows(&rows_of(&["abc"])), Err(BoardError::TooFewRows));
    assert_eq!(Board::from_rows(&rows_of(&[])), Err(BoardError::TooFewRows));
    assert_eq!(Board::from_rows(&rows_of(&["abc", "de"])), Err(BoardError::UnevenRows));
    assert_eq!(Board::from_rows(&rows_of(&["a", "b"])), Err(BoardError::TooNarrow));
    assert_eq!(Board::from_rows(&rows_of(&["", ""])), Err(BoardError::TooNarrow));
}

#[test]
fn from_parts_wants_a_character_on_each_node() {
    assert!(Board::from_parts(
        Graph::grid(2, 2),
        chars_of(vec![(0, 'a'), (1, 'b'), (2, 'c')])
    )
    .is_none());
    assert!(Board::from_parts(
        Graph::grid(2, 2),
        chars_of(vec![(0, 'a'), (1, 'b'), (2, 'c'), (4, 'd')])
    )
    .is_none());
    assert!(Board::from_parts(
        Graph::grid(2, 2),
        chars_of(vec![(0, 'a'), (1, 'b'), (2, 'c'), (3, 'd'), (4, 'e')])
    )
    .is_none());
    assert!(Board::from_parts(
        Graph::grid(2, 2),
        chars_of(vec![(0, 'a'), (1, 'b'), (2, 'c'), (3, 'd')])
    )
    .is_some());
    assert!(Board::from_parts(Graph::new(), chars_of(vec![])).is_some());
}

#[test]
fn end_to_end() {
    let board = "ba tn".parse::<Board>().unwrap();
    let dict = Dict::from_words(&[
        "an", "and", "ant", "anti", "bad", "banana", "bat", "bot", "boy",
    ]);

    let mut paths = board.search(&dict);
    paths.sort();

    assert_eq!(paths, vec![vec![0, 1, 2], vec![1, 3], vec![1, 3, 2]]);
    assert_eq!(board.path_to_word(&paths[0]), "bat");
    assert_eq!(board.path_to_word(&paths[1]), "an");
    assert_eq!(board.path_to_word(&paths[2]), "ant");
}

#[test]
fn empty_dictionary_finds_nothing() {
    let board = "abc def ghi".parse::<Board>().unwrap();
    assert_eq!(board.search(&Dict::new()), Vec::<Path>::new());
    assert_eq!(board.search(&Dict::from_words(&[])), Vec::<Path>::new());
}

#[test]
fn the_empty_word_is_on_no_path() {
    let board = "ab cd".parse::<Board>().unwrap();
    let dict = Dict::from_words(&[""]);
    assert!(dict.is_word_end());
    assert_eq!(board.search(&dict), Vec::<Path>::new());
}

#[test]
fn searching_twice_finds_the_same() {
    let board = "cat ear tea".parse::<Board>().unwrap();
    let dict = Dict::from_words(&["cat", "cater", "ear", "tea", "eat", "rat", "art", "tear", "a"]);
    let first = board.search(&dict);
    let second = board.search(&dict);
    assert!(!first.is_empty());
    let first_set: BTreeSet<Path> = first.iter().cloned().collect();
    let second_set: BTreeSet<Path> = second.iter().cloned().collect();
    assert_eq!(first_set, second_set);
    assert_eq!(first.len(), second.len());
}

#[test]
fn found_paths_are_paths_and_spell_words() {
    let words = ["cat", "cater", "ear", "tea", "eat", "rat", "art", "tear", "a", "at", "tee"];
    let board = "cat ear tea".parse::<Board>().unwrap();
    let grid = Graph::grid(3, 3);
    let dict = Dict::from_words(&words);
    let found = board.search(&dict);
    assert!(found.len() >= 8);
    let distinct: BTreeSet<Path> = found.iter().cloned().collect();
    assert_eq!(distinct.len(), found.len());
    for path in &found {
        assert!(!path.is_empty());
        let cells: BTreeSet<usize> = path.iter().cloned().collect();
        assert_eq!(cells.len(), path.len());
        for pair in path.windows(2) {
            assert!(grid.neighbors(pair[0]).unwrap().contains(&pair[1]));
        }
        let word = board.path_to_word(path);
        assert!(words.contains(&word.as_str()));
    }
}

#[test]
fn every_path_of_a_word_is_found() {
    let board = "aa aa".parse::<Board>().unwrap();
    let dict = Dict::from_words(&["aa"]);
    let mut found = board.search(&dict);
    found.sort();
    assert_eq!(
        found,
        vec![
            vec![0, 1],
            vec![0, 2],
            vec![0, 3],
            vec![1, 0],
            vec![1, 2],
            vec![1, 3],
            vec![2, 0],
            vec![2, 1],
            vec![2, 3],
            vec![3, 0],
            vec![3, 1],
            vec![3, 2],
        ]
    );
    assert_eq!(words_of(&board, &found), vec!["aa"; 12]);
}

#[test]
fn a_single_letter_is_a_word() {
    let board = "ab ca".parse::<Board>().unwrap();
    let dict = Dict::from_words(&["a"]);
    let mut found = board.search(&dict);
    found.sort();
    assert_eq!(found, vec![vec![0], vec![3]]);
}

#[test]
fn a_path_visits_no_cell_twice() {
    let board = "ab cd".parse::<Board>().unwrap();
    let dict = Dict::from_words(&["aba", "abcd", "abcda"]);
    assert_eq!(board.search(&dict), vec![vec![0, 1, 2, 3]]);
}

#[test]
fn a_path_steps_to_neighbors_only() {
    let board = "abc def ghi".parse::<Board>().unwrap();
    let dict = Dict::from_words(&["ac", "ai", "ae", "aeim", "aei"]);
    let mut found = board.search(&dict);
    found.sort();
    assert_eq!(found, vec![vec![0, 4], vec![0, 4, 8]]);
}

#[test]
fn path_to_word_spells_the_letters() {
    let board = "abc def ghi".parse::<Board>().unwrap();
    assert_eq!(board.path_to_word(&vec![]), "");
    assert_eq!(board.path_to_word(&vec![0, 4, 8]), "aei");
    assert_eq!(board.path_to_word(&vec![8, 8, 0]), "iia");
    assert_eq!(board.path_to_word(&vec![2, 9, 1, 100]), "c?b?");
}
