use indexer_lib::ngram::feed::{n_gram_with_1_padding, IndexFeed};
use indexer_lib::ngramindex::{GramData, NGramIndex};
use indexer_lib::preprocessor::occurances_for_source;

fn feed(text: &str, data: usize) -> IndexFeed {
    IndexFeed { grams: text.chars().collect(), data }
}

fn data_of<const N: usize>(index: &NGramIndex<N>, c: char) -> &GramData<N> {
    index.grams.get(&(c as u32)).unwrap()
}

fn place<const N: usize>(data: &GramData<N>, j: usize) -> Vec<(char, usize)> {
    data.followed_by[j].iter().map(|o| (o.gram, o.occurances)).collect()
}

fn sorted_place<const N: usize>(data: &GramData<N>, j: usize) -> Vec<(char, usize)> {
    let mut v = place(data, j);
    v.sort();
    v
}

#[test]
fn followers_of_a_short_text() {
    let index = NGramIndex::<2>::new(vec![feed("abcab", 7)]);
    assert!(index.data.is_empty());
    assert_eq!(index.grams.len(), 3);
    let a = data_of(&index, 'a');
    assert_eq!(a.occurances, 2);
    assert_eq!(place(a, 0), vec![('b', 1)]);
    assert_eq!(sorted_place(a, 1), vec![('b', 1), ('c', 1)]);
    let b = data_of(&index, 'b');
    assert_eq!(b.occurances, 2);
    assert_eq!(place(b, 0), vec![('c', 1)]);
    assert_eq!(place(b, 1), vec![('a', 1)]);
    let c = data_of(&index, 'c');
    assert_eq!(c.occurances, 1);
    assert_eq!(place(c, 0), vec![('a', 1)]);
    assert_eq!(place(c, 1), vec![('b', 1)]);
}

#[test]
fn followers_come_most_frequent_first() {
    let (grams, data) = NGramIndex::<1>::alomst_new(vec![feed("abacab", 0)]);
    assert!(data.is_empty());
    let a = grams.get(&('a' as u32)).unwrap();
    assert_eq!(a.occurances, 3);
    let list: Vec<(char, usize)> = a.followed_by[0].iter().map(|o| (o.gram, o.occurances)).collect();
    assert_eq!(list, vec![('b', 2), ('c', 1)]);
    let b = grams.get(&('b' as u32)).unwrap();
    assert_eq!(b.occurances, 2);
}

#[test]
fn texts_too_short_for_a_window_are_skipped() {
    let index = NGramIndex::<2>::new(vec![feed("ab", 0), feed("", 1), feed("x", 2)]);
    assert!(index.grams.is_empty());
}

#[test]
fn counts_add_up_over_texts() {
    let index = NGramIndex::<1>::new(vec![feed("ab", 0), feed("ab", 1), feed("ac", 2)]);
    let a = data_of(&index, 'a');
    assert_eq!(a.occurances, 3);
    assert_eq!(place(a, 0), vec![('b', 2), ('c', 1)]);
    assert_eq!(data_of(&index, 'b').occurances, 2);
    assert!(data_of(&index, 'b').followed_by[0].is_empty());
}

#[test]
fn window_prefixes_of_a_text() {
    let chars: Vec<char> = "abcdef".chars().collect();
    let mut got: Vec<String> = occurances_for_source::<4>(&chars).iter().map(|v| v.iter().collect()).collect();
    got.sort();
    assert_eq!(got, vec!["ab", "abc", "bc", "bcd"]);
}

#[test]
fn window_prefixes_are_listed_once() {
    let chars: Vec<char> = "ababab".chars().collect();
    let got: Vec<String> = occurances_for_source::<3>(&chars).iter().map(|v| v.iter().collect()).collect();
    assert_eq!(got, vec!["ab", "ba"]);
}

#[test]
fn window_prefixes_of_a_text_of_one_window() {
    let chars: Vec<char> = "abc".chars().collect();
    assert!(occurances_for_source::<3>(&chars).is_empty());
}

#[test]
fn padded_gram_takes_n_minus_one() {
    let chars: Vec<char> = "abcde".chars().collect();
    let mut cursor = 0;
    assert_eq!(n_gram_with_1_padding::<3>(&chars, &mut cursor), Some(vec!['a', 'b', '\0']));
    assert_eq!(cursor, 2);
    assert_eq!(n_gram_with_1_padding::<3>(&chars, &mut cursor), Some(vec!['c', 'd', '\0']));
    assert_eq!(n_gram_with_1_padding::<3>(&chars, &mut cursor), None);
    assert_eq!(cursor, 5);
}

#[test]
fn search_hints_follow_the_lookback() {
    let index = NGramIndex::<2>::new(vec![feed("abcab", 0)]);
    let query: Vec<char> = "ab".chars().collect();
    let frames = index.search(&query);
    assert_eq!(frames.len(), 2);
    // After one gram the window is not full: no hints.
    assert_eq!(frames[0], vec![None, None]);
    // Window "ab": `a` is most often followed by `b` one place on; `b` by `a` two places on.
    assert_eq!(frames[1], vec![Some(('a', 'b')), Some(('b', 'a'))]);
}

#[test]
fn search_stops_at_an_unknown_gram() {
    let index = NGramIndex::<2>::new(vec![feed("abcab", 0)]);
    let query: Vec<char> = "zab".chars().collect();
    let frames = index.search(&query);
    assert_eq!(frames[1], vec![None, None]);
    assert_eq!(frames[2], vec![Some(('a', 'b')), Some(('b', 'a'))]);
    let query: Vec<char> = "az".chars().collect();
    assert_eq!(index.search(&query)[1], vec![Some(('a', 'b')), None]);
}

fn summary<const N: usize>(grams: &std::collections::HashMap<u32, GramData<N>>) -> Vec<(u32, usize, Vec<Vec<(char, usize)>>)> {
    let mut out: Vec<(u32, usize, Vec<Vec<(char, usize)>>)> = grams
        .iter()
        .map(|(k, d)| (*k, d.occurances, (0..N).map(|j| sorted_place(d, j)).collect()))
        .collect();
    out.sort();
    out
}

#[test]
fn short_feeds_leave_the_counts_unchanged() {
    let (plain, _) = NGramIndex::<2>::alomst_new(vec![feed("abcab", 0), feed("bcd", 1)]);
    let (mixed, _) = NGramIndex::<2>::alomst_new(vec![
        feed("ab", 9),
        feed("abcab", 0),
        feed("", 8),
        feed("bcd", 1),
        feed("x", 7),
    ]);
    assert!(!plain.is_empty());
    assert_eq!(summary(&plain), summary(&mixed));
}

#[test]
fn new_holds_the_counts_of_alomst_new_and_drops_the_data() {
    let feeds = || vec![feed("abacab", 3), feed("cabd", 4)];
    let (grams, _) = NGramIndex::<2>::alomst_new(feeds());
    let index = NGramIndex::<2>::new(feeds());
    assert!(index.data.is_empty());
    assert_eq!(summary(&grams), summary(&index.grams));
}

#[test]
fn searching_nothing_needs_no_window() {
    let index = NGramIndex::<0>::new(vec![feed("", 0)]);
    assert!(index.search(&[]).is_empty());
    let index = NGramIndex::<2>::new(vec![feed("abcab", 0)]);
    let hints = index.search(&['a', 'b']);
    assert_eq!(hints.len(), 2);
    assert!(hints.iter().all(|frame| frame.len() == 2));
}
