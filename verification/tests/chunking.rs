use polymath::chunker::{chunk, split_words};

fn texts(chunks: &Vec<Vec<u8>>) -> Vec<String> {
    chunks.iter().map(|c| String::from_utf8(c.clone()).unwrap()).collect()
}

#[test]
fn chunk_concrete_scenario() {
    let out = chunk(b"the quick brown fox jumps over", 4);
    assert_eq!(texts(&out), vec!["the quick brown fox".to_string(), "jumps over".to_string()]);
}

#[test]
fn chunk_twice_identical() {
    let text = b"alpha beta gamma delta epsilon zeta eta theta";
    let a = chunk(text, 3);
    let b = chunk(text, 3);
    assert_eq!(a, b);
}

#[test]
fn chunk_empty_input_yields_no_chunks() {
    assert_eq!(chunk(b"", 512).len(), 0);
    assert_eq!(chunk(b"   \t\n  ", 512).len(), 0);
}

#[test]
fn chunk_normalizes_runs_of_whitespace() {
    let out = chunk(b"a  b\tc\nd", 2);
    assert_eq!(texts(&out), vec!["a b".to_string(), "c d".to_string()]);
}

#[test]
fn chunk_single_group_when_under_bound() {
    let out = chunk(b"one two three", 512);
    assert_eq!(texts(&out), vec!["one two three".to_string()]);
}

#[test]
fn chunk_bound_of_one_splits_every_word() {
    let out = chunk(b"x y z", 1);
    assert_eq!(texts(&out), vec!["x".to_string(), "y".to_string(), "z".to_string()]);
}

#[test]
fn split_words_drops_leading_and_trailing_space() {
    let ws = split_words(b"  hello   world \r\n");
    assert_eq!(texts(&ws), vec!["hello".to_string(), "world".to_string()]);
}

#[test]
fn split_words_empty() {
    assert_eq!(split_words(b"").len(), 0);
}
