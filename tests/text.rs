use minefield::text::{chars_of, is_whitespace, split_lines, split_on, trimmed};

fn strings(v: Vec<Vec<char>>) -> Vec<String> {
    v.into_iter().map(|s| s.into_iter().collect()).collect()
}

#[test]
fn split_keeps_empty_pieces() {
    let s = chars_of("a  b ");
    assert_eq!(strings(split_on(&s, ' ')), vec!["a", "", "b", ""]);
    assert_eq!(strings(split_on(&Vec::new(), ' ')), vec![""]);
}

#[test]
fn lines_drop_final_empty_piece() {
    assert_eq!(strings(split_lines(&chars_of("ab\n\ncd\n"))), vec!["ab", "", "cd"]);
    assert_eq!(strings(split_lines(&chars_of("ab"))), vec!["ab"]);
    assert!(split_lines(&chars_of("")).is_empty());
}

#[test]
fn trim_both_ends() {
    let t: String = trimmed(&chars_of("\t X O \u{3000}")).into_iter().collect();
    assert_eq!(t, "X O");
    assert!(trimmed(&chars_of("  \n ")).is_empty());
}

#[test]
fn whitespace_characters() {
    assert!(is_whitespace(' '));
    assert!(is_whitespace('\u{2028}'));
    assert!(!is_whitespace('X'));
    assert!(!is_whitespace('\u{200b}'));
}
