use word_freq::baseline::FreqKVs;
use word_freq::entries::FreqKV;

fn item(key: &str, value: usize) -> FreqKV {
    FreqKV { key: String::from(key), value }
}

#[test]
fn new_list_is_empty() {
    let mut freq = FreqKVs::new();
    assert_eq!(freq.len(), 0);
    assert!(freq.find_key("word").is_none());
}

#[test]
fn append_adds_at_the_end() {
    let mut freq = FreqKVs::new();
    freq.append(item("first", 1));
    freq.append(item("second", 4));
    assert_eq!(freq.len(), 2);
    let shown = freq.top(5);
    assert_eq!(shown.len(), 2);
    assert_eq!((shown[0].key.as_str(), shown[0].value), ("first", 1));
    assert_eq!((shown[1].key.as_str(), shown[1].value), ("second", 4));
}

#[test]
fn find_key_finds_the_entry_of_a_word() {
    let mut freq = FreqKVs::new();
    freq.append(item("a", 1));
    freq.append(item("b", 2));
    let found = freq.find_key("b").expect("the word is listed");
    assert_eq!(found.key, "b");
    assert_eq!(found.value, 2);
    assert!(freq.find_key("c").is_none());
    assert!(freq.find_key("").is_none());
}

#[test]
fn find_key_tells_words_apart_that_share_a_prefix() {
    let mut freq = FreqKVs::new();
    freq.append(item("word", 1));
    freq.append(item("words", 2));
    assert_eq!(freq.find_key("words").map(|e| e.value), Some(2));
    assert_eq!(freq.find_key("word").map(|e| e.value), Some(1));
    assert!(freq.find_key("wor").is_none());
    assert!(freq.find_key("wordy").is_none());
}

#[test]
fn find_key_lets_the_count_be_changed_in_place() {
    let mut freq = FreqKVs::new();
    freq.append(item("a", 1));
    freq.append(item("b", 1));
    if let Some(found) = freq.find_key("a") {
        found.value += 1;
    }
    assert_eq!(freq.find_key("a").map(|e| e.value), Some(2));
    assert_eq!(freq.find_key("b").map(|e| e.value), Some(1));
    assert_eq!(freq.len(), 2);
}

#[test]
fn find_key_returns_the_first_of_two_entries() {
    let mut freq = FreqKVs::new();
    freq.append(item("a", 1));
    freq.append(item("a", 7));
    assert_eq!(freq.find_key("a").map(|e| e.value), Some(1));
}

#[test]
fn sort_puts_higher_counts_first() {
    let mut freq = FreqKVs::new();
    for (key, value) in [("a", 1), ("b", 5), ("c", 3), ("d", 4), ("e", 2)] {
        freq.append(item(key, value));
    }
    freq.sort_freq_table();
    let keys: Vec<String> = freq.top(5).into_iter().map(|e| e.key).collect();
    assert_eq!(keys, vec!["b", "d", "c", "e", "a"]);
}

#[test]
fn sort_keeps_the_order_of_equal_counts() {
    let mut freq = FreqKVs::new();
    for (key, value) in
        [("a", 2), ("b", 1), ("c", 2), ("d", 3), ("e", 1), ("f", 2), ("g", 3), ("h", 1)]
    {
        freq.append(item(key, value));
    }
    freq.sort_freq_table();
    let shown: Vec<(String, usize)> =
        freq.top(8).into_iter().map(|e| (e.key, e.value)).collect();
    let expected: Vec<(String, usize)> =
        [("d", 3), ("g", 3), ("a", 2), ("c", 2), ("f", 2), ("b", 1), ("e", 1), ("h", 1)]
            .iter()
            .map(|(k, v)| (String::from(*k), *v))
            .collect();
    assert_eq!(shown, expected);
}

#[test]
fn sort_agrees_with_a_stable_sort_on_many_entries() {
    let mut freq = FreqKVs::new();
    let mut plain: Vec<(String, usize)> = Vec::new();
    for i in 0..257usize {
        let value = (i * 7919) % 13;
        freq.append(item(&format!("w{}", i), value));
        plain.push((format!("w{}", i), value));
    }
    freq.sort_freq_table();
    plain.sort_by_key(|entry| std::cmp::Reverse(entry.1));
    let shown: Vec<(String, usize)> =
        freq.top(257).into_iter().map(|e| (e.key, e.value)).collect();
    assert_eq!(freq.len(), 257);
    assert_eq!(shown, plain);
}

#[test]
fn sort_of_an_empty_list_and_of_one_entry() {
    let mut freq = FreqKVs::new();
    freq.sort_freq_table();
    assert_eq!(freq.len(), 0);
    freq.append(item("only", 3));
    freq.sort_freq_table();
    assert_eq!(freq.len(), 1);
    assert_eq!(freq.find_key("only").map(|e| e.value), Some(3));
}

#[test]
fn top_is_clamped_to_the_entries_there_are() {
    let mut freq = FreqKVs::new();
    assert!(freq.top(10).is_empty());
    freq.append(item("a", 1));
    freq.append(item("b", 2));
    freq.append(item("c", 3));
    assert_eq!(freq.top(10).len(), 3);
    assert_eq!(freq.top(3).len(), 3);
    assert_eq!(freq.top(2).len(), 2);
    assert_eq!(freq.top(0).len(), 0);
    let first: Vec<String> = freq.top(2).into_iter().map(|e| e.key).collect();
    assert_eq!(first, vec!["a", "b"]);
}

#[test]
fn default_item_is_the_empty_word_with_no_count() {
    let item = FreqKV::default();
    assert_eq!(item.key, "");
    assert_eq!(item.value, 0);
}

#[test]
fn clone_copies_word_and_count() {
    let first = item("word", 7);
    let second = first.clone();
    assert_eq!(second.key, "word");
    assert_eq!(second.value, 7);
    assert_eq!(first.key, "word");
}
