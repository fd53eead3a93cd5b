use std::collections::BTreeSet;
use std::io;
use word_filter::pfilter::{
    chunk_bounds, chunk_size, filter_chunk, filter_words, filter_words_with_workers, to_vec,
    FilteredWords,
};

fn read_error() -> io::Error {
    io::Error::new(io::ErrorKind::Other, "")
}

fn ok_words(words: &[&str]) -> Vec<io::Result<String>> {
    words.iter().map(|w| Ok(w.to_string())).collect()
}

fn drain(mut f: FilteredWords) -> Vec<String> {
    let mut out = Vec::new();
    while let Some(w) = f.next() {
        out.push(w);
    }
    out
}

#[test]
fn pfilter_filter_words_one() {
    let words = ok_words(&["tree", "flower", "mouse"]);
    let filtered_words = &mut filter_words(words, "house", 1).unwrap();
    match filtered_words.next() {
        Some(s) => assert_eq!(s, "mouse"),
        None => panic!("assertion failed: first item should be Some(_))"),
    }
}

#[test]
fn pfilter_filter_words_none() {
    let words = ok_words(&["tree", "flower", "stone"]);
    let filtered_words = &mut filter_words(words, "house", 1).unwrap();
    match filtered_words.next() {
        Some(_) => panic!("assertion failed: first item should be None() but was Some(_)"),
        None => {}
    }
}

#[test]
fn pfilter_filter_words_err() {
    let words = vec![
        Ok("tree".to_string()),
        Ok("flower".to_string()),
        Err(read_error())];
    match filter_words(words, "house", 1) {
        Ok(_) => panic!("assertion failed: expected a failure"),
        Err(_) => {}
    }
}

#[test]
fn parallel_failure_anywhere_fails_whole_call() {
    let words = vec![
        Ok("house".to_string()),
        Err(io::Error::new(io::ErrorKind::InvalidData, "first")),
        Ok("mouse".to_string()),
        Err(io::Error::new(io::ErrorKind::Other, "second"))];
    let err = filter_words_with_workers(words, "house", 1, 2).err().unwrap();
    assert_eq!(err.kind(), io::ErrorKind::InvalidData);
}

#[test]
fn parallel_empty_source_yields_nothing() {
    let words: Vec<io::Result<String>> = Vec::new();
    assert!(drain(filter_words(words, "house", 2).unwrap()).is_empty());
}

#[test]
fn parallel_result_same_for_every_worker_count() {
    let source = ["mouse", "tree", "house", "horse", "flower", "hose", "louse", "stone"];
    let expected = vec!["mouse", "house", "horse", "hose", "louse"];
    for workers in 1..12 {
        let got = drain(filter_words_with_workers(ok_words(&source), "house", 1, workers).unwrap());
        assert_eq!(got, expected, "workers = {}", workers);
    }
}

#[test]
fn modes_agree_as_sets() {
    let source = ["mouse", "tree", "house", "horse", "flower", "hose", "mouse"];
    let mut serial = word_filter::lfilter::filter_words(ok_words(&source), "house", 1);
    let mut from_serial = BTreeSet::new();
    while let Some(item) = serial.next() {
        from_serial.insert(item.unwrap());
    }
    let from_parallel: BTreeSet<String> =
        drain(filter_words(ok_words(&source), "house", 1).unwrap()).into_iter().collect();
    assert_eq!(from_serial, from_parallel);
    let expected: BTreeSet<String> =
        ["mouse", "house", "horse", "hose"].iter().map(|s| s.to_string()).collect();
    assert_eq!(from_parallel, expected);
}

#[test]
fn parallel_threshold_zero_keeps_equal_word() {
    let got = drain(filter_words_with_workers(ok_words(&["mouse", "house"]), "house", 0, 3).unwrap());
    assert_eq!(got, vec!["house"]);
}

#[test]
fn to_vec_reads_all_words() {
    assert_eq!(to_vec(ok_words(&["a", "b", "c"])).unwrap(), vec!["a", "b", "c"]);
}

#[test]
fn to_vec_returns_first_failure() {
    let words = vec![
        Ok("a".to_string()),
        Err(io::Error::new(io::ErrorKind::UnexpectedEof, "")),
        Err(io::Error::new(io::ErrorKind::Other, ""))];
    assert_eq!(to_vec(words).err().unwrap().kind(), io::ErrorKind::UnexpectedEof);
}

#[test]
fn chunk_size_rounds_up() {
    assert_eq!(chunk_size(10, 4), 3);
    assert_eq!(chunk_size(12, 4), 3);
    assert_eq!(chunk_size(0, 4), 0);
    assert_eq!(chunk_size(3, 8), 1);
    assert_eq!(chunk_size(usize::MAX, 1), usize::MAX);
    assert_eq!(chunk_size(usize::MAX, 2), usize::MAX / 2 + 1);
}

#[test]
fn chunk_bounds_cover_without_gaps() {
    assert_eq!(chunk_bounds(10, 4), vec![(0, 3), (3, 6), (6, 9), (9, 10)]);
    assert_eq!(chunk_bounds(12, 4), vec![(0, 3), (3, 6), (6, 9), (9, 12)]);
    assert_eq!(chunk_bounds(7, 1), vec![(0, 7)]);
}

#[test]
fn chunk_bounds_skip_chunks_past_the_end() {
    assert_eq!(chunk_bounds(2, 4), vec![(0, 1), (1, 2)]);
    assert_eq!(chunk_bounds(5, 4), vec![(0, 2), (2, 4), (4, 5)]);
    assert_eq!(chunk_bounds(0, 4), vec![]);
}

#[test]
fn filter_chunk_keeps_chunk_order() {
    let chunk: Vec<String> = ["hose", "tree", "mouse"].iter().map(|s| s.to_string()).collect();
    assert_eq!(filter_chunk(&chunk, "house", 1), vec!["hose", "mouse"]);
    assert!(filter_chunk(&chunk, "house", 0).is_empty());
}
