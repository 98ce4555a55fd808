use wordsearch::text::{split_runs, split_tokens};

fn strings(rows: Vec<Vec<char>>) -> Vec<String> {
    rows.into_iter().map(|row| row.into_iter().collect()).collect()
}

#[test]
fn split_tokens_splits_at_white_space() {
    assert_eq!(strings(split_tokens("abc def ghi")), vec!["abc", "def", "ghi"]);
    assert_eq!(strings(split_tokens("  abc\t\tde\nf  ")), vec!["abc", "de", "f"]);
    assert_eq!(strings(split_tokens("abc")), vec!["abc"]);
    assert_eq!(strings(split_tokens("")), Vec::<String>::new());
    assert_eq!(strings(split_tokens(" \n ")), Vec::<String>::new());
    assert_eq!(strings(split_tokens("a\u{2028}b\u{85}c_d")), vec!["a", "b", "c_d"]);
}

#[test]
fn split_tokens_agrees_with_split_whitespace() {
    for text in ["abc def ghi", " a  b ", "", "x", "\tä ö\u{a0}ü\r\n", "a-b,c d"] {
        let expected: Vec<String> = text.split_whitespace().map(String::from).collect();
        assert_eq!(strings(split_tokens(text)), expected);
    }
}

#[test]
fn split_runs_splits_at_the_marks() {
    let chars: Vec<char> = "ab-cd--e".chars().collect();
    let gaps = vec![false, false, true, false, false, true, true, false];
    assert_eq!(strings(split_runs(&chars, &gaps)), vec!["ab", "cd", "e"]);
    let gaps = vec![true, false, false, false, false, false, false, true];
    assert_eq!(strings(split_runs(&chars, &gaps)), vec!["b-cd--"]);
    assert_eq!(strings(split_runs(&chars, &vec![false; 8])), vec!["ab-cd--e"]);
    assert_eq!(strings(split_runs(&chars, &vec![true; 8])), Vec::<String>::new());
    assert_eq!(strings(split_runs(&vec![], &vec![])), Vec::<String>::new());
}
