use word_freq::analysis::{better_analysis, naive_analysis};
use word_freq::baseline::FreqKVs;
use word_freq::entries::FreqKV;
use word_freq::ranking::{rank, report, top, TOP_COUNT};
use word_freq::table::HashTable;
use word_freq::text::{same_text, tokenize};

fn pairs(items: Vec<FreqKV>) -> Vec<(String, usize)> {
    items.into_iter().map(|e| (e.key, e.value)).collect()
}

fn sorted_pairs(items: Vec<FreqKV>) -> Vec<(String, usize)> {
    let mut all = pairs(items);
    all.sort();
    all
}

fn expect(list: &[(&str, usize)]) -> Vec<(String, usize)> {
    list.iter().map(|(k, v)| (String::from(*k), *v)).collect()
}

fn borrowed(words: &Vec<String>) -> Vec<&str> {
    words.iter().map(|w| w.as_str()).collect()
}

#[test]
fn tokenize_splits_on_runs_of_white_space() {
    assert_eq!(tokenize("a b a c b a"), vec!["a", "b", "a", "c", "b", "a"]);
    assert_eq!(tokenize("one  two\t\tthree\n\nfour"), vec!["one", "two", "three", "four"]);
}

#[test]
fn tokenize_drops_white_space_at_both_ends() {
    assert_eq!(tokenize("  lead and trail \n"), vec!["lead", "and", "trail"]);
    assert_eq!(tokenize("\tword"), vec!["word"]);
    assert_eq!(tokenize("word\r\n"), vec!["word"]);
}

#[test]
fn tokenize_of_nothing_gives_no_words() {
    assert!(tokenize("").is_empty());
    assert!(tokenize(" \t\r\n ").is_empty());
}

#[test]
fn tokenize_keeps_punctuation_and_case() {
    assert_eq!(tokenize("Hello, world! hello"), vec!["Hello,", "world!", "hello"]);
}

#[test]
fn tokenize_knows_white_space_beyond_ascii() {
    // U+00A0 no-break space, U+2003 em space, U+3000 ideographic space.
    assert_eq!(tokenize("a\u{a0}b\u{2003}c\u{3000}d"), vec!["a", "b", "c", "d"]);
    assert_eq!(
        tokenize("\u{e9}t\u{e9} \u{4e16}\u{754c}"),
        vec!["\u{e9}t\u{e9}", "\u{4e16}\u{754c}"]
    );
}

#[test]
fn tokenize_agrees_with_split_whitespace() {
    let text = " The quick\tbrown\u{a0}fox \n jumps\u{2028}over the   lazy dog.\u{85}";
    let expected: Vec<&str> = text.trim().split_whitespace().collect();
    assert_eq!(tokenize(text), expected);
}

#[test]
fn tokenize_splits_at_the_characters_that_are_white_space() {
    for code in 0..0x3100u32 {
        if let Some(c) = char::from_u32(code) {
            let text = format!("a{}b", c);
            let words = tokenize(&text);
            if c.is_whitespace() {
                assert_eq!(words, vec!["a", "b"]);
            } else {
                assert_eq!(words, vec![text.as_str()]);
            }
        }
    }
}

#[test]
fn same_text_compares_whole_words() {
    assert!(same_text("", ""));
    assert!(same_text("word", "word"));
    assert!(!same_text("word", "words"));
    assert!(!same_text("word", "ward"));
    assert!(!same_text("word", ""));
    assert!(same_text("\u{e9}t\u{e9}", "\u{e9}t\u{e9}"));
    assert!(!same_text("\u{e9}", "\u{e8}"));
}

#[test]
fn both_tables_count_a_b_a_c_b_a() {
    let words = tokenize("a b a c b a");
    let words = borrowed(&words);
    let mut slots = HashTable::new();
    better_analysis(&mut slots, &words);
    let mut freq = FreqKVs::new();
    naive_analysis(&mut freq, &words);
    let expected = expect(&[("a", 3), ("b", 2), ("c", 1)]);
    assert_eq!(slots.len(), 3);
    assert_eq!(freq.len(), 3);
    assert_eq!(sorted_pairs(slots.entries()), expected);
    assert_eq!(sorted_pairs(freq.top(usize::MAX)), expected);
}

#[test]
fn naive_analysis_lists_words_in_the_order_first_seen() {
    let words = vec!["b", "a", "b", "c", "a", "b"];
    let mut freq = FreqKVs::new();
    naive_analysis(&mut freq, &words);
    assert_eq!(pairs(freq.top(10)), expect(&[("b", 3), ("a", 2), ("c", 1)]));
}

#[test]
fn naive_analysis_goes_on_from_what_the_list_holds() {
    let mut freq = FreqKVs::new();
    naive_analysis(&mut freq, &vec!["x", "y"]);
    naive_analysis(&mut freq, &vec!["y", "z", "y"]);
    assert_eq!(pairs(freq.top(10)), expect(&[("x", 1), ("y", 3), ("z", 1)]));
}

#[test]
fn better_analysis_goes_on_from_what_the_table_holds() {
    let mut slots = HashTable::new();
    better_analysis(&mut slots, &vec!["x", "y"]);
    better_analysis(&mut slots, &vec!["y", "z", "y"]);
    assert_eq!(sorted_pairs(slots.entries()), expect(&[("x", 1), ("y", 3), ("z", 1)]));
}

#[test]
fn no_words_give_no_entries_and_an_empty_report() {
    let words = tokenize("");
    let words = borrowed(&words);
    assert_eq!(words.len(), 0);
    let mut slots = HashTable::new();
    better_analysis(&mut slots, &words);
    let mut freq = FreqKVs::new();
    naive_analysis(&mut freq, &words);
    freq.sort_freq_table();
    assert_eq!(slots.len(), 0);
    assert_eq!(slots.capacity(), 10);
    assert_eq!(freq.len(), 0);
    assert!(report(&slots.entries()).is_empty());
    assert!(freq.top(TOP_COUNT).is_empty());
}

#[test]
fn report_over_fewer_than_ten_entries_shows_those_there_are() {
    let words = vec!["a", "b", "a", "c", "b", "a"];
    let mut slots = HashTable::new();
    better_analysis(&mut slots, &words);
    let mut freq = FreqKVs::new();
    naive_analysis(&mut freq, &words);
    freq.sort_freq_table();
    let expected = expect(&[("a", 3), ("b", 2), ("c", 1)]);
    assert_eq!(pairs(report(&slots.entries())), expected);
    assert_eq!(pairs(freq.top(TOP_COUNT)), expected);
}

#[test]
fn report_shows_ten_entries_of_more() {
    assert_eq!(TOP_COUNT, 10);
    let mut words: Vec<String> = Vec::new();
    for i in 0..15usize {
        for _ in 0..(i + 1) {
            words.push(format!("w{:02}", i));
        }
    }
    let words = borrowed(&words);
    let mut slots = HashTable::new();
    better_analysis(&mut slots, &words);
    let shown = pairs(report(&slots.entries()));
    let expected: Vec<(String, usize)> =
        (5..15usize).rev().map(|i| (format!("w{:02}", i), i + 1)).collect();
    assert_eq!(shown.len(), 10);
    assert_eq!(shown, expected);
}

#[test]
fn report_breaks_ties_by_slot_order() {
    // "a" to "j" have the home slots 0 to 9 of ten, in this order.
    let words = vec!["c", "a", "b", "c", "b", "d"];
    let mut slots = HashTable::new();
    better_analysis(&mut slots, &words);
    assert_eq!(pairs(slots.entries()), expect(&[("a", 1), ("b", 2), ("c", 2), ("d", 1)]));
    assert_eq!(
        pairs(report(&slots.entries())),
        expect(&[("b", 2), ("c", 2), ("a", 1), ("d", 1)])
    );
}

#[test]
fn rank_is_a_stable_sort_by_count_descending() {
    let items: Vec<FreqKV> = [("a", 1), ("b", 3), ("c", 1), ("d", 2), ("e", 3), ("f", 1)]
        .iter()
        .map(|(k, v)| FreqKV { key: String::from(*k), value: *v })
        .collect();
    assert_eq!(
        pairs(rank(&items)),
        expect(&[("b", 3), ("e", 3), ("d", 2), ("a", 1), ("c", 1), ("f", 1)])
    );
    assert_eq!(items.len(), 6);
}

#[test]
fn rank_keeps_entries_that_occur_twice() {
    let items: Vec<FreqKV> = [("a", 1), ("b", 2), ("a", 1)]
        .iter()
        .map(|(k, v)| FreqKV { key: String::from(*k), value: *v })
        .collect();
    assert_eq!(pairs(rank(&items)), expect(&[("b", 2), ("a", 1), ("a", 1)]));
}

#[test]
fn top_takes_the_first_entries() {
    let items: Vec<FreqKV> = [("a", 1), ("b", 3), ("c", 1)]
        .iter()
        .map(|(k, v)| FreqKV { key: String::from(*k), value: *v })
        .collect();
    assert_eq!(pairs(top(&items, 2)), expect(&[("a", 1), ("b", 3)]));
    assert_eq!(pairs(top(&items, 3)), expect(&[("a", 1), ("b", 3), ("c", 1)]));
    assert_eq!(pairs(top(&items, 4)), expect(&[("a", 1), ("b", 3), ("c", 1)]));
    assert!(top(&items, 0).is_empty());
}

#[test]
fn eleven_distinct_words_grow_the_table_once() {
    let words: Vec<String> = (0..11).map(|i| format!("token{}", i)).collect();
    let words = borrowed(&words);
    let mut slots = HashTable::new();
    better_analysis(&mut slots, &words[..10].to_vec());
    assert_eq!(slots.capacity(), 10);
    better_analysis(&mut slots, &words[10..].to_vec());
    assert_eq!(slots.capacity(), 20);
    assert_eq!(slots.len(), 11);
    let entries = sorted_pairs(slots.entries());
    let mut expected: Vec<(String, usize)> =
        words.iter().map(|w| (String::from(*w), 1)).collect();
    expected.sort();
    assert_eq!(entries, expected);
}

#[test]
fn both_tables_agree_on_a_longer_text() {
    let text = "it was the best of times it was the worst of times it was the age of wisdom \
                it was the age of foolishness it was the epoch of belief it was the epoch of \
                incredulity it was the season of light it was the season of darkness it was \
                the spring of hope it was the winter of despair";
    let words = tokenize(text);
    let words = borrowed(&words);
    let mut slots = HashTable::new();
    better_analysis(&mut slots, &words);
    let mut freq = FreqKVs::new();
    naive_analysis(&mut freq, &words);
    assert_eq!(slots.len(), freq.len());
    assert_eq!(sorted_pairs(slots.entries()), sorted_pairs(freq.top(usize::MAX)));
    let total: usize = slots.entries().iter().map(|e| e.value).sum();
    assert_eq!(total, words.len());
    freq.sort_freq_table();
    let best = pairs(freq.top(4));
    assert_eq!(best, expect(&[("it", 10), ("was", 10), ("the", 10), ("of", 10)]));
}
