use ftg::buffer::Buffer;

fn matches_of(text: &str, query: &str) -> Vec<(usize, usize)> {
    let buffer = Buffer::from_text(1, text);
    let q: Vec<char> = query.chars().collect();
    buffer.search(&q).collect_all().iter().map(|r| (r.begin, r.last)).collect()
}

#[test]
fn overlapping_matches_are_both_reported() {
    assert_eq!(matches_of("aaa", "aa"), vec![(0, 1), (1, 2)]);
}

#[test]
fn absent_query_yields_no_matches() {
    assert_eq!(matches_of("some longer content without the word", "xyz"), vec![]);
}

#[test]
fn empty_query_never_matches() {
    assert_eq!(matches_of("abc", ""), vec![]);
    assert_eq!(matches_of("", ""), vec![]);
}

#[test]
fn single_match_in_the_middle() {
    assert_eq!(matches_of("hello world", "o w"), vec![(4, 6)]);
}

#[test]
fn matches_come_in_order_of_begin() {
    assert_eq!(matches_of("abcabcabc", "abc"), vec![(0, 2), (3, 5), (6, 8)]);
}

#[test]
fn match_at_both_ends() {
    assert_eq!(matches_of("xaax", "x"), vec![(0, 0), (3, 3)]);
}

#[test]
fn query_longer_than_content_terminates_empty() {
    assert_eq!(matches_of("ab", "abc"), vec![]);
}

#[test]
fn heavily_overlapping_matches() {
    assert_eq!(matches_of("aaaa", "aaa"), vec![(0, 2), (1, 3)]);
}

#[test]
fn search_iter_streams_matches_one_by_one() {
    let buffer = Buffer::from_text(1, "aaa");
    let q: Vec<char> = "aa".chars().collect();
    let mut it = buffer.search(&q);
    let first = it.next().unwrap();
    assert_eq!((first.begin, first.last), (0, 1));
    let second = it.next().unwrap();
    assert_eq!((second.begin, second.last), (1, 2));
    assert!(it.next().is_none());
}
